//! Naming the nets: every connected component of the wire graph gets one
//! name, and no two components the same.

use crate::edge::NetEdge;
use crate::graph::{
    component_list, connected, edge_key, graph_add_edge, graph_components, graph_edge_weight,
    graph_edges, graph_neighbors, graph_node_list, graph_nodes, graph_ok, is_component_list,
    lemma_edge_key, lemma_neighbors, neighbors_in, views_of, Coord, EdgeKey, WireGraph,
};
use crate::labels::{
    holds_name, lemma_name_less_irreflexive, lemma_name_less_transitive, lemma_names_of,
    name_less, names_of, string_less, LabelManager,
};
use crate::wiring::{edge_fits, lemma_keys, lemma_not_isolated, no_isolated, wiring_of, Wiring};
use vstd::prelude::*;

verus! {

/// The pairs `(n, b)` for the neighbours `b` of `n`, in the order of
/// `nbrs`, that are not in `seen`.
pub open spec fn fresh_pairs(nbrs: Seq<Coord>, seen: Seq<Coord>, n: Coord) -> Seq<(Coord, Coord)>
    decreases nbrs.len(),
{
    if nbrs.len() == 0 {
        Seq::empty()
    } else {
        let rest = fresh_pairs(nbrs.drop_last(), seen, n);
        if seen.contains(nbrs.last()) {
            rest
        } else {
            rest.push((n, nbrs.last()))
        }
    }
}

/// The edges at the nodes `vs`, each named from the node that comes first
/// in `vs`: for every node in turn, the pairs to those of its neighbours
/// that have not had their turn.
pub open spec fn component_edges(nl: Seq<(Coord, Seq<Coord>)>, vs: Seq<Coord>) -> Seq<(Coord, Coord)>
    decreases vs.len(),
{
    if vs.len() == 0 {
        Seq::empty()
    } else {
        component_edges(nl, vs.drop_last()) + fresh_pairs(
            neighbors_in(nl, vs.last()),
            vs.drop_last(),
            vs.last(),
        )
    }
}

/// What stands in `fresh_pairs`.
pub proof fn lemma_fresh_pairs(nbrs: Seq<Coord>, seen: Seq<Coord>, n: Coord)
    ensures
        forall|j: int|
            0 <= j < fresh_pairs(nbrs, seen, n).len() ==> (#[trigger] fresh_pairs(nbrs, seen, n)[j]).0
                == n && nbrs.contains(fresh_pairs(nbrs, seen, n)[j].1) && !seen.contains(
                fresh_pairs(nbrs, seen, n)[j].1,
            ),
        forall|b: Coord|
            nbrs.contains(b) && !seen.contains(b) ==> #[trigger] fresh_pairs(nbrs, seen, n).contains(
                (n, b),
            ),
    decreases nbrs.len(),
{
    let fp = fresh_pairs(nbrs, seen, n);
    if nbrs.len() > 0 {
        let rest = fresh_pairs(nbrs.drop_last(), seen, n);
        lemma_fresh_pairs(nbrs.drop_last(), seen, n);
        assert forall|j: int| 0 <= j < fp.len() implies (#[trigger] fp[j]).0 == n && nbrs.contains(
            fp[j].1,
        ) && !seen.contains(fp[j].1) by {
            if j < rest.len() {
                assert(fp[j] == rest[j]);
                let i = choose|i: int|
                    0 <= i < nbrs.drop_last().len() && nbrs.drop_last()[i] == rest[j].1;
                assert(nbrs[i] == rest[j].1);
            } else {
                assert(nbrs[nbrs.len() - 1] == nbrs.last());
            }
        }
        assert forall|b: Coord| nbrs.contains(b) && !seen.contains(b) implies #[trigger] fp.contains(
            (n, b),
        ) by {
            let i = choose|i: int| 0 <= i < nbrs.len() && nbrs[i] == b;
            if i < nbrs.len() - 1 {
                assert(nbrs.drop_last()[i] == b);
                assert(rest.contains((n, b)));
                let j = choose|j: int| 0 <= j < rest.len() && rest[j] == (n, b);
                assert(fp[j] == (n, b));
            } else {
                assert(fp[fp.len() - 1] == (n, b));
            }
        }
    }
}

/// What stands in `component_edges`: pairs from a node of `vs` to one of
/// its neighbours, and among them every such pair whose second node does
/// not come before the first in `vs`.
pub proof fn lemma_component_edges(nl: Seq<(Coord, Seq<Coord>)>, vs: Seq<Coord>)
    ensures
        forall|j: int|
            0 <= j < component_edges(nl, vs).len() ==> vs.contains(
                (#[trigger] component_edges(nl, vs)[j]).0,
            ) && neighbors_in(nl, component_edges(nl, vs)[j].0).contains(component_edges(nl, vs)[j].1),
        forall|i: int, b: Coord|
            0 <= i < vs.len() && neighbors_in(nl, vs[i]).contains(b) && !vs.take(i).contains(b)
                ==> #[trigger] component_edges(nl, vs).contains((#[trigger] vs[i], b)),
    decreases vs.len(),
{
    let ce = component_edges(nl, vs);
    if vs.len() > 0 {
        let front = vs.drop_last();
        let n = vs.last();
        let head = component_edges(nl, front);
        let tail = fresh_pairs(neighbors_in(nl, n), front, n);
        lemma_component_edges(nl, front);
        lemma_fresh_pairs(neighbors_in(nl, n), front, n);
        assert forall|j: int| 0 <= j < ce.len() implies vs.contains((#[trigger] ce[j]).0)
            && neighbors_in(nl, ce[j].0).contains(ce[j].1) by {
            if j < head.len() {
                assert(ce[j] == head[j]);
                let i = choose|i: int| 0 <= i < front.len() && front[i] == head[j].0;
                assert(vs[i] == head[j].0);
            } else {
                assert(ce[j] == tail[j - head.len()]);
                assert(vs[vs.len() - 1] == n);
            }
        }
        assert forall|i: int, b: Coord|
            0 <= i < vs.len() && neighbors_in(nl, vs[i]).contains(b) && !vs.take(i).contains(
                b,
            ) implies #[trigger] ce.contains((#[trigger] vs[i], b)) by {
            if i < vs.len() - 1 {
                assert(front[i] == vs[i]);
                assert(front.take(i) =~= vs.take(i));
                assert(head.contains((front[i], b)));
                let j = choose|j: int| 0 <= j < head.len() && head[j] == (vs[i], b);
                assert(ce[j] == (vs[i], b));
            } else {
                assert(vs.take(i) =~= front);
                assert(tail.contains((n, b)));
                let j = choose|j: int| 0 <= j < tail.len() && tail[j] == (n, b);
                assert(ce[head.len() + j] == (n, b));
            }
        }
    }
}

/// Whether `b` stands among the first `i` of `vertices`.
fn seen_before(vertices: &Vec<Coord>, i: usize, b: Coord) -> (r: bool)
    requires
        i <= vertices.len(),
    ensures
        r == vertices@.take(i as int).contains(b),
{
    let mut j: usize = 0;
    while j < i
        invariant
            j <= i <= vertices.len(),
            forall|w: int| 0 <= w < j ==> vertices@[w] != b,
        decreases i - j,
    {
        if vertices[j].0 == b.0 && vertices[j].1 == b.1 {
            proof {
                assert(vertices@.take(i as int)[j as int] == b);
            }
            return true;
        }
        j += 1;
    }
    false
}

/// The edges at the given nodes, as pairs of nodes: for every node in
/// turn, the pairs to those of its neighbours that have not had their turn,
/// so that an edge between two of the nodes is listed once.
pub fn nodes_to_edge_nodes(g: &WireGraph, vertices: &Vec<Coord>) -> (ret: Vec<(Coord, Coord)>)
    ensures
        ret@ == component_edges(graph_node_list(*g), vertices@),
{
    let mut ret: Vec<(Coord, Coord)> = Vec::new();
    let ghost nl = graph_node_list(*g);
    let mut i: usize = 0;
    while i < vertices.len()
        invariant
            i <= vertices.len(),
            nl == graph_node_list(*g),
            ret@ == component_edges(nl, vertices@.take(i as int)),
        decreases vertices.len() - i,
    {
        let n = vertices[i];
        let nb = graph_neighbors(g, n);
        let ghost base = ret@;
        let ghost seen = vertices@.take(i as int);
        let mut j: usize = 0;
        while j < nb.len()
            invariant
                j <= nb.len(),
                i < vertices.len(),
                seen == vertices@.take(i as int),
                ret@ == base + fresh_pairs(nb@.take(j as int), seen, n),
            decreases nb.len() - j,
        {
            proof {
                assert(nb@.take(j as int + 1).drop_last() =~= nb@.take(j as int));
                assert(nb@.take(j as int + 1).last() == nb@[j as int]);
            }
            if !seen_before(vertices, i, nb[j]) {
                ret.push((n, nb[j]));
                proof {
                    assert(ret@ =~= base + fresh_pairs(nb@.take(j as int + 1), seen, n));
                }
            }
            j += 1;
        }
        proof {
            assert(nb@.take(nb@.len() as int) =~= nb@);
            assert(vertices@.take(i as int + 1).drop_last() =~= seen);
            assert(vertices@.take(i as int + 1).last() == n);
        }
        i += 1;
    }
    proof {
        assert(vertices@.take(vertices@.len() as int) =~= vertices@);
    }
    ret
}

/// The segment `e` under the name `l`.
pub open spec fn relabelled(e: NetEdge, l: String) -> NetEdge {
    NetEdge { src: e.src, dst: e.dst, label: Some(l), interactable: e.interactable }
}

/// `k` is the key of one of the first `n` pairs.
pub open spec fn listed(pairs: Seq<(Coord, Coord)>, n: int, k: EdgeKey) -> bool {
    exists|i: int| 0 <= i < n && edge_key((#[trigger] pairs[i]).0, pairs[i].1) == k
}

/// `post` is `pre` with the name `l` on the edges of the first `n` pairs,
/// as far as they exist.
pub open spec fn relabels(
    pre: Map<EdgeKey, NetEdge>,
    post: Map<EdgeKey, NetEdge>,
    pairs: Seq<(Coord, Coord)>,
    n: int,
    l: String,
) -> bool {
    &&& post.dom() == pre.dom()
    &&& forall|k: EdgeKey| #[trigger]
        pre.contains_key(k) ==> post[k] == if listed(pairs, n, k) {
            relabelled(pre[k], l)
        } else {
            pre[k]
        }
}

/// The edge of pair `i` exists and carries the name `s`, which is not taken.
pub open spec fn offers(
    t: Map<EdgeKey, NetEdge>,
    pairs: Seq<(Coord, Coord)>,
    taken: Set<Seq<char>>,
    i: int,
    s: Seq<char>,
) -> bool {
    &&& t.contains_key(edge_key(pairs[i].0, pairs[i].1))
    &&& t[edge_key(pairs[i].0, pairs[i].1)].name() == Some(s)
    &&& !taken.contains(s)
}

/// `s` is a name that the component may keep: it stands on the edge of one
/// of the first `n` pairs and is not taken.
pub open spec fn candidate(
    t: Map<EdgeKey, NetEdge>,
    pairs: Seq<(Coord, Coord)>,
    taken: Set<Seq<char>>,
    n: int,
    s: Seq<char>,
) -> bool {
    exists|i: int| 0 <= i < n && #[trigger] offers(t, pairs, taken, i, s)
}

/// `s` is the candidate that no other candidate comes before.
pub open spec fn least_candidate(
    t: Map<EdgeKey, NetEdge>,
    pairs: Seq<(Coord, Coord)>,
    taken: Set<Seq<char>>,
    n: int,
    s: Seq<char>,
) -> bool {
    &&& candidate(t, pairs, taken, n, s)
    &&& forall|c: Seq<char>| #[trigger] candidate(t, pairs, taken, n, c) ==> !name_less(c, s)
}

/// There is a candidate among the first `n` pairs.
pub open spec fn has_candidate(
    t: Map<EdgeKey, NetEdge>,
    pairs: Seq<(Coord, Coord)>,
    taken: Set<Seq<char>>,
    n: int,
) -> bool {
    exists|s: Seq<char>| #[trigger] candidate(t, pairs, taken, n, s)
}

/// A sound wiring stays sound when names change.
pub proof fn lemma_relabels_wf(pre: Wiring, post: Wiring, pairs: Seq<(Coord, Coord)>, n: int, l: String)
    requires
        pre.wf(),
        post.nodes == pre.nodes,
        relabels(pre.edges, post.edges, pairs, n, l),
    ensures
        post.wf(),
{
    assert forall|k: EdgeKey| #[trigger] post.edges.contains_key(k) implies edge_fits(k, post.edges[k])
        && post.nodes.contains(k.0) && post.nodes.contains(k.1) by {
        assert(post.edges.dom().contains(k));
        assert(pre.edges.contains_key(k));
    }
}

/// Finds the name for a component and gives it to all its edges. `edges`
/// are the component's edges as pairs of nodes. The name is the least of
/// the names that stand on these edges and are not in `taken_net_names`;
/// where there is none, a new permanent name.
pub fn unify_labels(
    g: &mut WireGraph,
    lm: &mut LabelManager,
    edges: &Vec<(Coord, Coord)>,
    taken_net_names: &Vec<String>,
) -> (label: String)
    requires
        graph_ok(*old(g)),
        wiring_of(*old(g)).wf(),
        old(lm).wf(),
    ensures
        graph_ok(*final(g)),
        final(lm).wf(),
        graph_node_list(*final(g)) == graph_node_list(*old(g)),
        relabels(
            graph_edges(*old(g)),
            graph_edges(*final(g)),
            edges@,
            edges@.len() as int,
            label,
        ),
        has_candidate(
            graph_edges(*old(g)),
            edges@,
            names_of(taken_net_names@),
            edges@.len() as int,
        ) ==> least_candidate(
            graph_edges(*old(g)),
            edges@,
            names_of(taken_net_names@),
            edges@.len() as int,
            label@,
        ) && *final(lm) == *old(lm),
        !has_candidate(
            graph_edges(*old(g)),
            edges@,
            names_of(taken_net_names@),
            edges@.len() as int,
        ) ==> LabelManager::mints(*old(lm), *final(lm), label@),
{
    let ghost t = graph_edges(*g);
    let ghost taken = names_of(taken_net_names@);
    let mut label: Option<String> = None;
    let mut i: usize = 0;
    while i < edges.len()
        invariant
            i <= edges.len(),
            t == graph_edges(*g),
            taken == names_of(taken_net_names@),
            match label {
                Some(l) => least_candidate(t, edges@, taken, i as int, l@),
                None => !has_candidate(t, edges@, taken, i as int),
            },
        decreases edges.len() - i,
    {
        let ghost n = i as int;
        let ew = graph_edge_weight(g, edges[i].0, edges[i].1);
        let ghost prior = label;
        let mut gain: Option<String> = None;
        match ew {
            Some(ew) => {
                match ew.label {
                    Some(l1) => {
                        if !holds_name(taken_net_names, &l1) {
                            gain = Some(l1);
                        }
                    },
                    None => {},
                }
            },
            None => {},
        }
        proof {
            assert forall|s: Seq<char>| #[trigger]
                candidate(t, edges@, taken, n + 1, s) <==> candidate(t, edges@, taken, n, s) || offers(
                    t,
                    edges@,
                    taken,
                    n,
                    s,
                ) by {
                if candidate(t, edges@, taken, n + 1, s) {
                    let w = choose|w: int| 0 <= w < n + 1 && #[trigger] offers(t, edges@, taken, w, s);
                    if w < n {
                        assert(candidate(t, edges@, taken, n, s));
                    }
                }
                if candidate(t, edges@, taken, n, s) {
                    let w = choose|w: int| 0 <= w < n && #[trigger] offers(t, edges@, taken, w, s);
                    assert(offers(t, edges@, taken, w, s));
                }
                if offers(t, edges@, taken, n, s) {
                    assert(candidate(t, edges@, taken, n + 1, s));
                }
            }
        }
        match gain {
            Some(l1) => {
                proof {
                    assert(offers(t, edges@, taken, n, l1@));
                    assert forall|s: Seq<char>| offers(t, edges@, taken, n, s) implies s == l1@ by {}
                    lemma_name_less_irreflexive(l1@);
                }
                let better = match &label {
                    None => true,
                    Some(l) => string_less(&l1, l),
                };
                if better {
                    proof {
                        assert(candidate(t, edges@, taken, n + 1, l1@));
                        assert forall|c: Seq<char>| #[trigger]
                            candidate(t, edges@, taken, n + 1, c) implies !name_less(c, l1@) by {
                            if c != l1@ {
                                assert(candidate(t, edges@, taken, n, c));
                                match prior {
                                    Some(l) => {
                                        if name_less(c, l1@) {
                                            lemma_name_less_transitive(c, l1@, l@);
                                        }
                                    },
                                    None => {
                                        assert(has_candidate(t, edges@, taken, n));
                                    },
                                }
                            }
                        }
                    }
                    label = Some(l1);
                } else {
                    proof {
                        let l = prior.unwrap();
                        assert(candidate(t, edges@, taken, n, l@));
                        assert(candidate(t, edges@, taken, n + 1, l@));
                    }
                }
            },
            None => {
                proof {
                    assert forall|s: Seq<char>| !offers(t, edges@, taken, n, s) by {}
                    match prior {
                        Some(l) => {
                            assert(candidate(t, edges@, taken, n, l@));
                            assert(candidate(t, edges@, taken, n + 1, l@));
                        },
                        None => {
                            if has_candidate(t, edges@, taken, n + 1) {
                                let s = choose|s: Seq<char>| #[trigger]
                                    candidate(t, edges@, taken, n + 1, s);
                                assert(candidate(t, edges@, taken, n, s));
                                assert(has_candidate(t, edges@, taken, n));
                            }
                        },
                    }
                }
            },
        }
        i += 1;
    }
    let chosen = match label {
        Some(l) => l,
        None => lm.new_label(),
    };
    let ghost pre = wiring_of(*g);
    let mut j: usize = 0;
    proof {
        assert(graph_edges(*g).dom() =~= t.dom());
    }
    while j < edges.len()
        invariant
            j <= edges.len(),
            graph_ok(*g),
            pre == wiring_of(*old(g)),
            pre.wf(),
            wiring_of(*g).nodes == pre.nodes,
            graph_node_list(*g) == graph_node_list(*old(g)),
            relabels(pre.edges, graph_edges(*g), edges@, j as int, chosen),
        decreases edges.len() - j,
    {
        let a = edges[j].0;
        let b = edges[j].1;
        let ghost cur = graph_edges(*g);
        let ghost k = edge_key(a, b);
        let ew = graph_edge_weight(g, a, b);
        match ew {
            Some(ew) => {
                let mut ew = ew;
                ew.label = Some(chosen.clone());
                proof {
                    assert(cur.dom().contains(k));
                    assert(pre.edges.contains_key(k));
                    assert(ew == relabelled(pre.edges[k], chosen));
                    lemma_edge_key(a, b);
                }
                let _ = graph_add_edge(g, a, b, ew);
                proof {
                    let nxt = graph_edges(*g);
                    assert(nxt.dom() =~= pre.edges.dom());
                    assert(graph_nodes(*g) =~= pre.nodes);
                    assert forall|x: EdgeKey| #[trigger] pre.edges.contains_key(x) implies nxt[x]
                        == if listed(edges@, j as int + 1, x) {
                        relabelled(pre.edges[x], chosen)
                    } else {
                        pre.edges[x]
                    } by {
                        lemma_listed_step(edges@, j as int, x);
                    }
                }
            },
            None => {
                proof {
                    assert(!cur.dom().contains(k));
                    assert forall|x: EdgeKey| #[trigger] pre.edges.contains_key(x) implies cur[x]
                        == if listed(edges@, j as int + 1, x) {
                        relabelled(pre.edges[x], chosen)
                    } else {
                        pre.edges[x]
                    } by {
                        lemma_listed_step(edges@, j as int, x);
                    }
                }
            },
        }
        j += 1;
    }
    chosen
}

/// One pair more is listed.
pub proof fn lemma_listed_step(pairs: Seq<(Coord, Coord)>, n: int, k: EdgeKey)
    requires
        0 <= n < pairs.len(),
    ensures
        listed(pairs, n + 1, k) <==> listed(pairs, n, k) || edge_key(pairs[n].0, pairs[n].1) == k,
{
    if listed(pairs, n + 1, k) {
        let i = choose|i: int| 0 <= i < n + 1 && edge_key((#[trigger] pairs[i]).0, pairs[i].1) == k;
        if i < n {
            assert(listed(pairs, n, k));
        }
    }
    if listed(pairs, n, k) {
        let i = choose|i: int| 0 <= i < n && edge_key((#[trigger] pairs[i]).0, pairs[i].1) == k;
        assert(edge_key(pairs[i].0, pairs[i].1) == k);
    }
    if edge_key(pairs[n].0, pairs[n].1) == k {
        assert(listed(pairs, n + 1, k));
    }
}

/// Every segment has a name.
pub open spec fn all_named(t: Map<EdgeKey, NetEdge>) -> bool {
    forall|k: EdgeKey| #[trigger] t.contains_key(k) ==> t[k].label.is_some()
}

/// Segments that a walk connects have the same name.
#[verifier::opaque]
pub open spec fn names_uniform(t: Map<EdgeKey, NetEdge>) -> bool {
    forall|k1: EdgeKey, k2: EdgeKey|
        #[trigger] t.contains_key(k1) && #[trigger] t.contains_key(k2) && connected(t, k1.0, k2.0)
            ==> t[k1].name() == t[k2].name()
}

/// Segments with the same name are connected by a walk.
#[verifier::opaque]
pub open spec fn names_unique(t: Map<EdgeKey, NetEdge>) -> bool {
    forall|k1: EdgeKey, k2: EdgeKey|
        #[trigger] t.contains_key(k1) && #[trigger] t.contains_key(k2) && t[k1].name() == t[k2].name()
            ==> connected(t, k1.0, k2.0)
}

/// What `names_uniform` says of two segments.
pub proof fn lemma_uniform(t: Map<EdgeKey, NetEdge>, k1: EdgeKey, k2: EdgeKey)
    requires
        names_uniform(t),
        t.contains_key(k1),
        t.contains_key(k2),
        connected(t, k1.0, k2.0),
    ensures
        t[k1].name() == t[k2].name(),
{
    reveal(names_uniform);
}

/// What `names_unique` says of two segments.
pub proof fn lemma_unique(t: Map<EdgeKey, NetEdge>, k1: EdgeKey, k2: EdgeKey)
    requires
        names_unique(t),
        t.contains_key(k1),
        t.contains_key(k2),
        t[k1].name() == t[k2].name(),
    ensures
        connected(t, k1.0, k2.0),
{
    reveal(names_unique);
}

/// The same table has uniform names if it has.
pub proof fn lemma_same_names_uniform(a: Map<EdgeKey, NetEdge>, b: Map<EdgeKey, NetEdge>)
    requires
        a == b,
        names_uniform(a),
    ensures
        names_uniform(b),
{
}

/// No segment carries a name that `lm` could still give out: every name on
/// a segment is registered, or is no name of a number from the watermark
/// on.
pub open spec fn names_safe(t: Map<EdgeKey, NetEdge>, lm: LabelManager) -> bool {
    forall|k: EdgeKey| #[trigger] t.contains_key(k) && t[k].label.is_some() ==> lm.knows(
        t[k].label.unwrap()@,
    )
}

/// The same segments, whatever their names.
pub open spec fn same_geometry(pre: Map<EdgeKey, NetEdge>, post: Map<EdgeKey, NetEdge>) -> bool {
    &&& post.dom() == pre.dom()
    &&& forall|k: EdgeKey| #[trigger]
        pre.contains_key(k) ==> post[k].src == pre[k].src && post[k].dst == pre[k].dst
            && post[k].interactable == pre[k].interactable
}

/// The names are in order already: every segment has one, connected
/// segments the same, others different ones, and no node is without a
/// segment.
pub open spec fn settled(w: Wiring) -> bool {
    &&& all_named(w.edges)
    &&& names_uniform(w.edges)
    &&& names_unique(w.edges)
    &&& no_isolated(w)
}

/// The name `name` of component `i` either stood on one of its segments
/// before, or is new to the registry.
pub open spec fn kept_or_minted(
    pre: Wiring,
    cs: Seq<Seq<Coord>>,
    i: int,
    name: Seq<char>,
    lm0: LabelManager,
    lm: LabelManager,
) -> bool {
    ||| exists|k: EdgeKey| #[trigger]
        pre.edges.contains_key(k) && cs[i].contains(k.0) && pre.edges[k].name() == Some(name)
    ||| (!lm0.registered().contains(name) && lm.registered().contains(name))
}

/// No name stands twice in `taken`.
pub open spec fn distinct_names(taken: Seq<Seq<char>>) -> bool {
    forall|i: int, j: int| 0 <= i < j < taken.len() ==> #[trigger] taken[i] != #[trigger] taken[j]
}

/// The segments of the components that have their name carry it.
pub open spec fn inv_named(
    pre: Wiring,
    cur: Map<EdgeKey, NetEdge>,
    cs: Seq<Seq<Coord>>,
    taken: Seq<Seq<char>>,
) -> bool {
    forall|k: EdgeKey, i: int|
        pre.edges.contains_key(k) && 0 <= i < taken.len() && #[trigger] cs[i].contains(k.0)
            ==> cur[k].name() == Some(taken[i])
}

/// The segments of the components that wait for their name are as they were.
pub open spec fn inv_untouched(
    pre: Wiring,
    cur: Map<EdgeKey, NetEdge>,
    cs: Seq<Seq<Coord>>,
    taken: Seq<Seq<char>>,
) -> bool {
    forall|k: EdgeKey| #[trigger]
        pre.edges.contains_key(k) && (forall|i: int|
            0 <= i < taken.len() ==> !#[trigger] cs[i].contains(k.0)) ==> cur[k] == pre.edges[k]
}

/// The registry has only grown, and the floating names are untouched.
pub open spec fn inv_registry(lm0: LabelManager, lm: LabelManager) -> bool {
    &&& lm0.registered().subset_of(lm.registered())
    &&& lm.floating_watermark() == lm0.floating_watermark()
    &&& lm0.watermark() <= lm.watermark()
}

/// Every name given so far was kept from a segment or newly minted.
pub open spec fn inv_origin(
    pre: Wiring,
    cs: Seq<Seq<Coord>>,
    taken: Seq<Seq<char>>,
    lm0: LabelManager,
    lm: LabelManager,
) -> bool {
    forall|i: int| 0 <= i < taken.len() ==> kept_or_minted(pre, cs, i, #[trigger] taken[i], lm0, lm)
}

/// Where no segment carried a name at the start that could still be given
/// out, the names given so far differ from each other, and none of them and
/// none on a segment can still be given out.
pub open spec fn inv_registered(
    pre: Wiring,
    cur: Map<EdgeKey, NetEdge>,
    taken: Seq<Seq<char>>,
    lm0: LabelManager,
    lm: LabelManager,
) -> bool {
    names_safe(pre.edges, lm0) ==> distinct_names(taken) && (forall|i: int|
        0 <= i < taken.len() ==> lm.knows(#[trigger] taken[i])) && names_safe(cur, lm)
}

/// Where the names were in order at the start, nothing has changed.
pub open spec fn inv_settled(
    pre: Wiring,
    cur: Map<EdgeKey, NetEdge>,
    lm0: LabelManager,
    lm: LabelManager,
) -> bool {
    settled(pre) ==> lm == lm0 && forall|k: EdgeKey| #[trigger]
        pre.edges.contains_key(k) ==> cur[k].name() == pre.edges[k].name()
}

/// What holds while the components are named one after the other, when
/// those before number `taken.len()` have got the names in `taken`.
pub open spec fn relabel_inv(
    pre: Wiring,
    cur: Map<EdgeKey, NetEdge>,
    cs: Seq<Seq<Coord>>,
    taken: Seq<Seq<char>>,
    lm0: LabelManager,
    lm: LabelManager,
) -> bool {
    &&& taken.len() <= cs.len()
    &&& same_geometry(pre.edges, cur)
    &&& inv_named(pre, cur, cs, taken)
    &&& inv_untouched(pre, cur, cs, taken)
    &&& inv_registry(lm0, lm)
    &&& inv_origin(pre, cs, taken, lm0, lm)
    &&& inv_registered(pre, cur, taken, lm0, lm)
    &&& inv_settled(pre, cur, lm0, lm)
}

/// The texts of a list of names.
pub open spec fn texts(names: Seq<String>) -> Seq<Seq<char>> {
    names.map_values(|s: String| s@)
}

/// The pairs that `component_edges` lists for a component are the edges
/// that end in the component.
pub proof fn lemma_component_listing(g: WireGraph, cs: Seq<Seq<Coord>>, c: int)
    requires
        graph_ok(g),
        wiring_of(g).wf(),
        is_component_list(graph_nodes(g), graph_edges(g), cs),
        0 <= c < cs.len(),
    ensures
        forall|k: EdgeKey| #[trigger]
            graph_edges(g).contains_key(k) ==> (listed(
                component_edges(graph_node_list(g), cs[c]),
                component_edges(graph_node_list(g), cs[c]).len() as int,
                k,
            ) <==> cs[c].contains(k.0)),
        forall|k: EdgeKey| #[trigger]
            graph_edges(g).contains_key(k) ==> (cs[c].contains(k.0) <==> cs[c].contains(k.1)),
{
    reveal(is_component_list);
    let w = wiring_of(g);
    let t = graph_edges(g);
    let nl = graph_node_list(g);
    let vs = cs[c];
    let ce = component_edges(nl, vs);
    lemma_keys(w);
    lemma_component_edges(nl, vs);
    assert forall|a: Coord, b: Coord| #[trigger] crate::graph::adjacent(t, a, b) && vs.contains(
        a,
    ) implies vs.contains(b) by {
        lemma_edge_key(a, b);
        crate::graph::lemma_connected_basics(t, a, b);
        assert(t.contains_key(edge_key(a, b)));
        assert(graph_nodes(g).contains(b));
        let j = choose|j: int| 0 <= j < cs.len() && #[trigger] cs[j].contains(b);
        assert(cs[c].contains(a) && cs[j].contains(b));
        assert(connected(t, a, b));
    }
    assert forall|k: EdgeKey| #[trigger] t.contains_key(k) implies (cs[c].contains(k.0)
        <==> cs[c].contains(k.1)) by {
        lemma_edge_key(k.0, k.1);
        assert(crate::graph::adjacent(t, k.0, k.1));
        assert(crate::graph::adjacent(t, k.1, k.0));
    }
    assert forall|k: EdgeKey| #[trigger] t.contains_key(k) implies (listed(ce, ce.len() as int, k)
        <==> vs.contains(k.0)) by {
        if listed(ce, ce.len() as int, k) {
            let i = choose|i: int| 0 <= i < ce.len() && edge_key((#[trigger] ce[i]).0, ce[i].1) == k;
            let a = ce[i].0;
            let b = ce[i].1;
            lemma_neighbors(g, a);
            lemma_edge_key(a, b);
            assert(neighbors_in(nl, a).contains(b));
            assert(crate::graph::adjacent(t, a, b));
            assert(vs.contains(a) && vs.contains(b));
        }
        if vs.contains(k.0) {
            let a = k.0;
            let b = k.1;
            lemma_edge_key(a, b);
            assert(crate::graph::adjacent(t, a, b) && crate::graph::adjacent(t, b, a));
            assert(vs.contains(b));
            lemma_neighbors(g, a);
            lemma_neighbors(g, b);
            assert(neighbors_in(nl, a).contains(b));
            assert(neighbors_in(nl, b).contains(a));
            let ia = choose|ia: int| 0 <= ia < vs.len() && vs[ia] == a;
            let ib = choose|ib: int| 0 <= ib < vs.len() && vs[ib] == b;
            if ia < ib {
                assert(!vs.take(ia).contains(b)) by {
                    if vs.take(ia).contains(b) {
                        let x = choose|x: int| 0 <= x < vs.take(ia).len() && vs.take(ia)[x] == b;
                        assert(vs[x] == b);
                    }
                }
                assert(ce.contains((vs[ia], b)));
                let j = choose|j: int| 0 <= j < ce.len() && ce[j] == (a, b);
                assert(edge_key(ce[j].0, ce[j].1) == k);
            } else {
                assert(!vs.take(ib).contains(a)) by {
                    if vs.take(ib).contains(a) {
                        let x = choose|x: int| 0 <= x < vs.take(ib).len() && vs.take(ib)[x] == a;
                        assert(vs[x] == a);
                    }
                }
                assert(ce.contains((vs[ib], a)));
                let j = choose|j: int| 0 <= j < ce.len() && ce[j] == (b, a);
                assert(edge_key(ce[j].0, ce[j].1) == k);
            }
        }
    }
}

/// The name `s` stands on a segment of component `i`, and no component
/// before it has got it.
pub open spec fn own_free(
    pre: Map<EdgeKey, NetEdge>,
    cs: Seq<Seq<Coord>>,
    i: int,
    given: Seq<Seq<char>>,
    s: Seq<char>,
) -> bool {
    &&& exists|k: EdgeKey| #[trigger]
        pre.contains_key(k) && cs[i].contains(k.0) && pre[k].name() == Some(s)
    &&& forall|j: int| 0 <= j < i ==> #[trigger] given[j] != s
}

/// Component `i` has got its name `given[i]` by the rule: the least of the
/// names that stand on its segments and that no component before it has
/// got, with the registry left alone; where there is no such name, a new
/// permanent name, which takes the registry from `before` to `after`.
pub open spec fn turn(
    pre: Map<EdgeKey, NetEdge>,
    cs: Seq<Seq<Coord>>,
    i: int,
    given: Seq<Seq<char>>,
    before: LabelManager,
    after: LabelManager,
) -> bool {
    if exists|s: Seq<char>| #[trigger] own_free(pre, cs, i, given, s) {
        &&& own_free(pre, cs, i, given, given[i])
        &&& forall|c: Seq<char>| #[trigger] own_free(pre, cs, i, given, c) ==> !name_less(c, given[i])
        &&& after == before
    } else {
        LabelManager::mints(before, after, given[i])
    }
}

/// The first components, as many as `given` is long, have got their names
/// by the rule, one after the other, with the registry going through the
/// states `lms`.
pub open spec fn rule_upto(
    pre: Map<EdgeKey, NetEdge>,
    cs: Seq<Seq<Coord>>,
    given: Seq<Seq<char>>,
    lms: Seq<LabelManager>,
) -> bool {
    &&& lms.len() == given.len() + 1
    &&& forall|i: int|
        0 <= i < given.len() ==> #[trigger] turn(pre, cs, i, given, lms[i], lms[i + 1])
}

/// The segments of `post` are those of `pre` under the names that the
/// components `cs` get by the rule when they are taken in turn: `given`
/// are the names in the order of the components, and `lms` the states that
/// the registry goes through, from `lm0` to `lm`.
#[verifier::opaque]
pub open spec fn named_by_rule(
    pre: Map<EdgeKey, NetEdge>,
    post: Map<EdgeKey, NetEdge>,
    cs: Seq<Seq<Coord>>,
    given: Seq<Seq<char>>,
    lms: Seq<LabelManager>,
    lm0: LabelManager,
    lm: LabelManager,
) -> bool {
    &&& same_geometry(pre, post)
    &&& given.len() == cs.len()
    &&& rule_upto(pre, cs, given, lms)
    &&& lms[0] == lm0
    &&& lms.last() == lm
    &&& forall|k: EdgeKey, i: int|
        post.contains_key(k) && 0 <= i < cs.len() && #[trigger] cs[i].contains(k.0)
            ==> post[k].name() == Some(given[i])
}

/// Whether a component has got its name by the rule does not depend on
/// the names of the components after it.
pub proof fn lemma_turn_prefix(
    pre: Map<EdgeKey, NetEdge>,
    cs: Seq<Seq<Coord>>,
    i: int,
    g1: Seq<Seq<char>>,
    g2: Seq<Seq<char>>,
    before: LabelManager,
    after: LabelManager,
)
    requires
        0 <= i < g1.len(),
        i < g2.len(),
        forall|j: int| 0 <= j <= i ==> g1[j] == g2[j],
        turn(pre, cs, i, g1, before, after),
    ensures
        turn(pre, cs, i, g2, before, after),
{
    assert forall|s: Seq<char>| own_free(pre, cs, i, g1, s) == own_free(pre, cs, i, g2, s) by {
        if own_free(pre, cs, i, g1, s) {
            assert forall|j: int| 0 <= j < i implies #[trigger] g2[j] != s by {
                assert(g1[j] != s);
            }
        }
        if own_free(pre, cs, i, g2, s) {
            assert forall|j: int| 0 <= j < i implies #[trigger] g1[j] != s by {
                assert(g2[j] != s);
            }
        }
    }
    if exists|s: Seq<char>| #[trigger] own_free(pre, cs, i, g1, s) {
        let s = choose|s: Seq<char>| #[trigger] own_free(pre, cs, i, g1, s);
        assert(own_free(pre, cs, i, g2, s));
        assert forall|c: Seq<char>| #[trigger] own_free(pre, cs, i, g2, c) implies !name_less(
            c,
            g2[i],
        ) by {
            assert(own_free(pre, cs, i, g1, c));
        }
    } else {
        assert forall|s: Seq<char>| !#[trigger] own_free(pre, cs, i, g2, s) by {
            assert(!own_free(pre, cs, i, g1, s));
        }
    }
}

/// The names among which `unify_labels` chooses for the component whose
/// turn it is are the names that stand on its segments and that no
/// component before it has got.
proof fn lemma_candidates_are_own(
    pre: Wiring,
    cur: Map<EdgeKey, NetEdge>,
    cs: Seq<Seq<Coord>>,
    taken: Seq<Seq<char>>,
    pairs: Seq<(Coord, Coord)>,
    label: Seq<char>,
    s: Seq<char>,
)
    requires
        is_component_list(pre.nodes, pre.edges, cs),
        cur.dom() == pre.edges.dom(),
        inv_untouched(pre, cur, cs, taken),
        taken.len() < cs.len(),
        lists_component(pre, pairs, cs, taken.len() as int),
    ensures
        candidate(cur, pairs, taken.to_set(), pairs.len() as int, s) <==> own_free(
            pre.edges,
            cs,
            taken.len() as int,
            taken.push(label),
            s,
        ),
{
    reveal(is_component_list);
    let c = taken.len() as int;
    let n = pairs.len() as int;
    let tk = taken.to_set();
    let taken2 = taken.push(label);
    lemma_turn_untouched(pre, cur, cs, taken);
    if candidate(cur, pairs, tk, n, s) {
        lemma_chosen(pre, cur, cs, c, tk, pairs, s);
        assert forall|j: int| 0 <= j < c implies #[trigger] taken2[j] != s by {
            assert(taken2[j] == taken[j]);
            assert(tk.contains(taken[j]));
        }
    }
    if own_free(pre.edges, cs, c, taken2, s) {
        let k = choose|k: EdgeKey| #[trigger]
            pre.edges.contains_key(k) && cs[c].contains(k.0) && pre.edges[k].name() == Some(s);
        assert(cur.dom().contains(k));
        assert(listed(pairs, n, k));
        let w = choose|w: int| 0 <= w < n && edge_key((#[trigger] pairs[w]).0, pairs[w].1) == k;
        assert(cur[k] == pre.edges[k]);
        assert(!tk.contains(s)) by {
            if tk.contains(s) {
                let j = choose|j: int| 0 <= j < taken.len() && taken[j] == s;
                assert(taken2[j] == s);
            }
        }
        assert(offers(cur, pairs, tk, w, s));
    }
}

/// Naming one more component: the rule.
proof fn lemma_step_rule(
    pre: Wiring,
    cur: Map<EdgeKey, NetEdge>,
    cs: Seq<Seq<Coord>>,
    taken: Seq<Seq<char>>,
    lms: Seq<LabelManager>,
    lm1: LabelManager,
    lm2: LabelManager,
    pairs: Seq<(Coord, Coord)>,
    label: String,
)
    requires
        is_component_list(pre.nodes, pre.edges, cs),
        cur.dom() == pre.edges.dom(),
        inv_untouched(pre, cur, cs, taken),
        taken.len() < cs.len(),
        lists_component(pre, pairs, cs, taken.len() as int),
        rule_upto(pre.edges, cs, taken, lms),
        lms.last() == lm1,
        has_candidate(cur, pairs, taken.to_set(), pairs.len() as int) ==> least_candidate(
            cur,
            pairs,
            taken.to_set(),
            pairs.len() as int,
            label@,
        ) && lm2 == lm1,
        !has_candidate(cur, pairs, taken.to_set(), pairs.len() as int) ==> LabelManager::mints(
            lm1,
            lm2,
            label@,
        ),
    ensures
        rule_upto(pre.edges, cs, taken.push(label@), lms.push(lm2)),
{
    reveal(is_component_list);
    let c = taken.len() as int;
    let n = pairs.len() as int;
    let tk = taken.to_set();
    let taken2 = taken.push(label@);
    let lms2 = lms.push(lm2);
    assert forall|s: Seq<char>| candidate(cur, pairs, tk, n, s) <==> own_free(
        pre.edges,
        cs,
        c,
        taken2,
        s,
    ) by {
        lemma_candidates_are_own(pre, cur, cs, taken, pairs, label@, s);
    }
    assert(turn(pre.edges, cs, c, taken2, lm1, lm2)) by {
        if has_candidate(cur, pairs, tk, n) {
            let s = choose|s: Seq<char>| #[trigger] candidate(cur, pairs, tk, n, s);
            assert(own_free(pre.edges, cs, c, taken2, s));
            assert(taken2[c] == label@);
            assert(candidate(cur, pairs, tk, n, label@));
            assert forall|x: Seq<char>| #[trigger] own_free(pre.edges, cs, c, taken2, x) implies !name_less(
                x,
                taken2[c],
            ) by {
                assert(candidate(cur, pairs, tk, n, x));
            }
        } else {
            assert forall|x: Seq<char>| !#[trigger] own_free(pre.edges, cs, c, taken2, x) by {
                if own_free(pre.edges, cs, c, taken2, x) {
                    assert(candidate(cur, pairs, tk, n, x));
                }
            }
            assert(taken2[c] == label@);
        }
    }
    assert forall|i: int| 0 <= i < taken2.len() implies #[trigger] turn(
        pre.edges,
        cs,
        i,
        taken2,
        lms2[i],
        lms2[i + 1],
    ) by {
        if i < c {
            assert(lms2[i] == lms[i] && lms2[i + 1] == lms[i + 1]);
            assert(turn(pre.edges, cs, i, taken, lms[i], lms[i + 1]));
            lemma_turn_prefix(pre.edges, cs, i, taken, taken2, lms[i], lms[i + 1]);
        } else {
            assert(lms2[c] == lm1 && lms2[c + 1] == lm2);
        }
    }
}

/// No node stands in two components.
pub proof fn lemma_one_component(
    nodes: Set<Coord>,
    t: Map<EdgeKey, NetEdge>,
    cs: Seq<Seq<Coord>>,
    i: int,
    j: int,
    n: Coord,
)
    requires
        is_component_list(nodes, t, cs),
        0 <= i < cs.len(),
        0 <= j < cs.len(),
        cs[i].contains(n),
        cs[j].contains(n),
    ensures
        i == j,
{
    reveal(is_component_list);
    crate::graph::lemma_connected_basics(t, n, n);
}

/// The pairs list the edges that end in component `c`.
pub open spec fn lists_component(
    pre: Wiring,
    pairs: Seq<(Coord, Coord)>,
    cs: Seq<Seq<Coord>>,
    c: int,
) -> bool {
    forall|k: EdgeKey| #[trigger]
        pre.edges.contains_key(k) ==> (listed(pairs, pairs.len() as int, k) <==> cs[c].contains(k.0))
}

/// The segments of the component whose turn it is are as they were at the
/// start.
proof fn lemma_turn_untouched(
    pre: Wiring,
    cur: Map<EdgeKey, NetEdge>,
    cs: Seq<Seq<Coord>>,
    taken: Seq<Seq<char>>,
)
    requires
        is_component_list(pre.nodes, pre.edges, cs),
        inv_untouched(pre, cur, cs, taken),
        taken.len() < cs.len(),
    ensures
        forall|k: EdgeKey| #[trigger]
            pre.edges.contains_key(k) && cs[taken.len() as int].contains(k.0) ==> cur[k]
                == pre.edges[k],
{
    reveal(is_component_list);
    let c = taken.len() as int;
    assert forall|k: EdgeKey| #[trigger] pre.edges.contains_key(k) && cs[c].contains(k.0) implies cur[k]
        == pre.edges[k] by {
        assert forall|i: int| 0 <= i < c implies !#[trigger] cs[i].contains(k.0) by {
            if cs[i].contains(k.0) {
                lemma_one_component(pre.nodes, pre.edges, cs, i, c, k.0);
            }
        }
    }
}

/// Naming one more component: the segments.
proof fn lemma_step_segments(
    pre: Wiring,
    cur: Map<EdgeKey, NetEdge>,
    nxt: Map<EdgeKey, NetEdge>,
    cs: Seq<Seq<Coord>>,
    taken: Seq<Seq<char>>,
    pairs: Seq<(Coord, Coord)>,
    label: String,
)
    requires
        is_component_list(pre.nodes, pre.edges, cs),
        same_geometry(pre.edges, cur),
        inv_named(pre, cur, cs, taken),
        inv_untouched(pre, cur, cs, taken),
        taken.len() < cs.len(),
        lists_component(pre, pairs, cs, taken.len() as int),
        relabels(cur, nxt, pairs, pairs.len() as int, label),
    ensures
        same_geometry(pre.edges, nxt),
        inv_named(pre, nxt, cs, taken.push(label@)),
        inv_untouched(pre, nxt, cs, taken.push(label@)),
{
    reveal(is_component_list);
    let c = taken.len() as int;
    let n = pairs.len() as int;
    let taken2 = taken.push(label@);
    assert forall|k: EdgeKey| #[trigger] pre.edges.contains_key(k) implies cur.contains_key(k)
        && nxt.contains_key(k) by {
        assert(cur.dom().contains(k));
        assert(nxt.dom().contains(k));
    }
    assert forall|k: EdgeKey, i: int|
        pre.edges.contains_key(k) && 0 <= i < taken2.len() && #[trigger] cs[i].contains(
            k.0,
        ) implies nxt[k].name() == Some(taken2[i]) by {
        if i < c {
            if cs[c].contains(k.0) {
                lemma_one_component(pre.nodes, pre.edges, cs, i, c, k.0);
            }
            assert(!listed(pairs, n, k));
            assert(nxt[k] == cur[k]);
            assert(taken2[i] == taken[i]);
        } else {
            assert(listed(pairs, n, k));
        }
    }
    assert forall|k: EdgeKey| #[trigger]
        pre.edges.contains_key(k) && (forall|i: int|
            0 <= i < taken2.len() ==> !#[trigger] cs[i].contains(k.0)) implies nxt[k]
        == pre.edges[k] by {
        assert(!cs[c].contains(k.0));
        assert(!listed(pairs, n, k));
        assert forall|i: int| 0 <= i < c implies !#[trigger] cs[i].contains(k.0) by {
            assert(0 <= i < taken2.len());
        }
    }
}

/// A name that was chosen among the candidates stands on a segment of the
/// component, as it was at the start, and is not taken.
proof fn lemma_chosen(
    pre: Wiring,
    cur: Map<EdgeKey, NetEdge>,
    cs: Seq<Seq<Coord>>,
    c: int,
    tk: Set<Seq<char>>,
    pairs: Seq<(Coord, Coord)>,
    name: Seq<char>,
)
    requires
        cur.dom() == pre.edges.dom(),
        0 <= c < cs.len(),
        forall|k: EdgeKey| #[trigger]
            pre.edges.contains_key(k) ==> (listed(pairs, pairs.len() as int, k) <==> cs[c].contains(
                k.0,
            )),
        forall|k: EdgeKey| #[trigger]
            pre.edges.contains_key(k) && cs[c].contains(k.0) ==> cur[k] == pre.edges[k],
        candidate(cur, pairs, tk, pairs.len() as int, name),
    ensures
        !tk.contains(name),
        exists|k: EdgeKey| #[trigger]
            pre.edges.contains_key(k) && cs[c].contains(k.0) && pre.edges[k].name() == Some(name),
{
    let n = pairs.len() as int;
    let w = choose|w: int| 0 <= w < n && #[trigger] offers(cur, pairs, tk, w, name);
    let kw = edge_key(pairs[w].0, pairs[w].1);
    assert(cur.dom().contains(kw));
    assert(pre.edges.contains_key(kw));
    assert(listed(pairs, n, kw));
    assert(cs[c].contains(kw.0));
    assert(cur[kw] == pre.edges[kw]);
}

/// Naming one more component: where the name comes from, and the registry.
proof fn lemma_step_origin(
    pre: Wiring,
    cur: Map<EdgeKey, NetEdge>,
    nxt: Map<EdgeKey, NetEdge>,
    cs: Seq<Seq<Coord>>,
    taken: Seq<Seq<char>>,
    lm0: LabelManager,
    lm1: LabelManager,
    lm2: LabelManager,
    pairs: Seq<(Coord, Coord)>,
    label: String,
)
    requires
        is_component_list(pre.nodes, pre.edges, cs),
        same_geometry(pre.edges, cur),
        inv_untouched(pre, cur, cs, taken),
        inv_registry(lm0, lm1),
        inv_origin(pre, cs, taken, lm0, lm1),
        inv_registered(pre, cur, taken, lm0, lm1),
        taken.len() < cs.len(),
        lists_component(pre, pairs, cs, taken.len() as int),
        relabels(cur, nxt, pairs, pairs.len() as int, label),
        has_candidate(cur, pairs, taken.to_set(), pairs.len() as int) ==> least_candidate(
            cur,
            pairs,
            taken.to_set(),
            pairs.len() as int,
            label@,
        ) && lm2 == lm1,
        !has_candidate(cur, pairs, taken.to_set(), pairs.len() as int) ==> LabelManager::mints(
            lm1,
            lm2,
            label@,
        ),
    ensures
        inv_registry(lm0, lm2),
        inv_origin(pre, cs, taken.push(label@), lm0, lm2),
        inv_registered(pre, nxt, taken.push(label@), lm0, lm2),
{
    reveal(is_component_list);
    let c = taken.len() as int;
    let n = pairs.len() as int;
    let tk = taken.to_set();
    let taken2 = taken.push(label@);
    lemma_turn_untouched(pre, cur, cs, taken);
    if has_candidate(cur, pairs, tk, n) {
        lemma_chosen(pre, cur, cs, c, tk, pairs, label@);
    }
    assert(kept_or_minted(pre, cs, c, label@, lm0, lm2));
    assert forall|i: int| 0 <= i < taken2.len() implies kept_or_minted(
        pre,
        cs,
        i,
        #[trigger] taken2[i],
        lm0,
        lm2,
    ) by {
        if i < c {
            assert(taken2[i] == taken[i]);
            assert(kept_or_minted(pre, cs, i, taken[i], lm0, lm1));
        }
    }
    if names_safe(pre.edges, lm0) {
        assert(lm2.knows(label@)) by {
            if has_candidate(cur, pairs, tk, n) {
                let w = choose|w: int| 0 <= w < n && #[trigger] offers(cur, pairs, tk, w, label@);
                let kw = edge_key(pairs[w].0, pairs[w].1);
                assert(cur.contains_key(kw) && cur[kw].label.is_some());
            }
        }
        assert forall|i: int| 0 <= i < taken2.len() implies lm2.knows(#[trigger] taken2[i]) by {
            if i < c {
                assert(taken2[i] == taken[i]);
                assert(lm1.knows(taken[i]));
                crate::labels::lemma_knows_later(lm1, lm2, taken[i]);
            }
        }
        assert forall|i: int, j: int| 0 <= i < j < taken2.len() implies #[trigger] taken2[i]
            != #[trigger] taken2[j] by {
            if j < c {
                assert(taken2[i] == taken[i] && taken2[j] == taken[j]);
            } else {
                assert(taken2[i] == taken[i]);
                assert(tk.contains(taken[i]));
                assert(lm1.knows(taken[i]));
                if !has_candidate(cur, pairs, tk, n) {
                    let m = (lm2.watermark() - 1) as nat;
                    assert(m >= lm1.watermark() && label@ == crate::labels::net_name(m));
                }
            }
        }
        assert forall|k: EdgeKey| #[trigger] nxt.contains_key(k) && nxt[k].label.is_some() implies lm2.knows(
            nxt[k].label.unwrap()@,
        ) by {
            assert(nxt.dom().contains(k));
            assert(cur.dom().contains(k));
            assert(cur.contains_key(k));
            if listed(pairs, n, k) {
                assert(nxt[k].label.unwrap()@ == label@);
            } else {
                assert(nxt[k] == cur[k]);
                crate::labels::lemma_knows_later(lm1, lm2, cur[k].label.unwrap()@);
            }
        }
    }
}

/// Naming one more component: where the names were in order, they stay.
proof fn lemma_step_settled(
    pre: Wiring,
    cur: Map<EdgeKey, NetEdge>,
    nxt: Map<EdgeKey, NetEdge>,
    cs: Seq<Seq<Coord>>,
    taken: Seq<Seq<char>>,
    lm0: LabelManager,
    lm1: LabelManager,
    lm2: LabelManager,
    pairs: Seq<(Coord, Coord)>,
    label: String,
)
    requires
        pre.wf(),
        is_component_list(pre.nodes, pre.edges, cs),
        same_geometry(pre.edges, cur),
        inv_untouched(pre, cur, cs, taken),
        inv_origin(pre, cs, taken, lm0, lm1),
        inv_settled(pre, cur, lm0, lm1),
        taken.len() < cs.len(),
        lists_component(pre, pairs, cs, taken.len() as int),
        relabels(cur, nxt, pairs, pairs.len() as int, label),
        has_candidate(cur, pairs, taken.to_set(), pairs.len() as int) ==> least_candidate(
            cur,
            pairs,
            taken.to_set(),
            pairs.len() as int,
            label@,
        ) && lm2 == lm1,
    ensures
        inv_settled(pre, nxt, lm0, lm2),
{
    reveal(is_component_list);
    let c = taken.len() as int;
    let n = pairs.len() as int;
    let tk = taken.to_set();
    if settled(pre) {
        lemma_keys(pre);
        lemma_turn_untouched(pre, cur, cs, taken);
        assert forall|k: EdgeKey| #[trigger] pre.edges.contains_key(k) implies cur.contains_key(k)
            && nxt.contains_key(k) by {
            assert(cur.dom().contains(k));
            assert(nxt.dom().contains(k));
        }
        // the component has a segment, and its name is free
        assert(cs[c].len() > 0);
        let v = cs[c][0];
        assert(cs[c].contains(v));
        assert(pre.nodes.contains(v));
        lemma_not_isolated(pre, v);
        let u = choose|u: Coord| #[trigger] pre.adjacent(v, u);
        let k = edge_key(v, u);
        lemma_edge_key(v, u);
        assert(pre.edges.contains_key(k));
        crate::graph::lemma_connected_basics(pre.edges, v, u);
        assert(crate::graph::adjacent(pre.edges, v, u));
        assert(pre.nodes.contains(u));
        let ju = choose|ju: int| 0 <= ju < cs.len() && #[trigger] cs[ju].contains(u);
        assert(cs[c].contains(v) && cs[ju].contains(u));
        assert(ju == c);
        assert(cs[c].contains(k.0));
        assert(listed(pairs, n, k));
        let w = choose|w: int| 0 <= w < n && edge_key((#[trigger] pairs[w]).0, pairs[w].1) == k;
        let name = pre.edges[k].name().unwrap();
        assert(cur[k] == pre.edges[k]);
        assert(!tk.contains(name)) by {
            if tk.contains(name) {
                let i = choose|i: int| 0 <= i < taken.len() && taken[i] == name;
                assert(kept_or_minted(pre, cs, i, taken[i], lm0, lm1));
                let k0 = choose|k0: EdgeKey| #[trigger]
                    pre.edges.contains_key(k0) && cs[i].contains(k0.0) && pre.edges[k0].name()
                        == Some(name);
                lemma_unique(pre.edges, k0, k);
                assert(cs[i].contains(k0.0) && cs[c].contains(k.0));
            }
        }
        assert(offers(cur, pairs, tk, w, name));
        assert(candidate(cur, pairs, tk, n, name));
        assert(has_candidate(cur, pairs, tk, n));
        lemma_chosen(pre, cur, cs, c, tk, pairs, label@);
        let k2 = choose|k2: EdgeKey| #[trigger]
            pre.edges.contains_key(k2) && cs[c].contains(k2.0) && pre.edges[k2].name() == Some(
                label@,
            );
        assert(cs[c].contains(k2.0) && cs[c].contains(k.0));
        assert(connected(pre.edges, k2.0, k.0));
        lemma_uniform(pre.edges, k2, k);
        assert(label@ == name);
        assert forall|x: EdgeKey| #[trigger] pre.edges.contains_key(x) implies nxt[x].name()
            == pre.edges[x].name() by {
            if listed(pairs, n, x) {
                assert(cs[c].contains(x.0) && cs[c].contains(k.0));
                assert(connected(pre.edges, x.0, k.0));
                lemma_uniform(pre.edges, x, k);
            } else {
                assert(nxt[x] == cur[x]);
            }
        }
    }
}

/// Naming one more component keeps `relabel_inv`.
pub proof fn lemma_relabel_step(
    pre: Wiring,
    cur: Map<EdgeKey, NetEdge>,
    nxt: Map<EdgeKey, NetEdge>,
    cs: Seq<Seq<Coord>>,
    taken: Seq<Seq<char>>,
    lm0: LabelManager,
    lm1: LabelManager,
    lm2: LabelManager,
    pairs: Seq<(Coord, Coord)>,
    label: String,
)
    requires
        pre.wf(),
        is_component_list(pre.nodes, pre.edges, cs),
        relabel_inv(pre, cur, cs, taken, lm0, lm1),
        taken.len() < cs.len(),
        lists_component(pre, pairs, cs, taken.len() as int),
        relabels(cur, nxt, pairs, pairs.len() as int, label),
        has_candidate(cur, pairs, taken.to_set(), pairs.len() as int) ==> least_candidate(
            cur,
            pairs,
            taken.to_set(),
            pairs.len() as int,
            label@,
        ) && lm2 == lm1,
        !has_candidate(cur, pairs, taken.to_set(), pairs.len() as int) ==> LabelManager::mints(
            lm1,
            lm2,
            label@,
        ),
    ensures
        relabel_inv(pre, nxt, cs, taken.push(label@), lm0, lm2),
{
    reveal(is_component_list);
    lemma_step_segments(pre, cur, nxt, cs, taken, pairs, label);
    lemma_step_origin(pre, cur, nxt, cs, taken, lm0, lm1, lm2, pairs, label);
    if settled(pre) {
        lemma_settled_has_candidate(pre, cur, cs, taken, lm0, lm1, pairs);
    }
    lemma_step_settled(pre, cur, nxt, cs, taken, lm0, lm1, lm2, pairs, label);
}

/// Where the names were in order at the start, the component whose turn it
/// is has a name to keep.
proof fn lemma_settled_has_candidate(
    pre: Wiring,
    cur: Map<EdgeKey, NetEdge>,
    cs: Seq<Seq<Coord>>,
    taken: Seq<Seq<char>>,
    lm0: LabelManager,
    lm1: LabelManager,
    pairs: Seq<(Coord, Coord)>,
)
    requires
        pre.wf(),
        settled(pre),
        is_component_list(pre.nodes, pre.edges, cs),
        same_geometry(pre.edges, cur),
        inv_untouched(pre, cur, cs, taken),
        inv_origin(pre, cs, taken, lm0, lm1),
        inv_settled(pre, cur, lm0, lm1),
        taken.len() < cs.len(),
        lists_component(pre, pairs, cs, taken.len() as int),
    ensures
        has_candidate(cur, pairs, taken.to_set(), pairs.len() as int),
{
    reveal(is_component_list);
    let c = taken.len() as int;
    let n = pairs.len() as int;
    let tk = taken.to_set();
    lemma_keys(pre);
    lemma_turn_untouched(pre, cur, cs, taken);
    assert(cs[c].len() > 0);
    let v = cs[c][0];
    assert(cs[c].contains(v));
    assert(pre.nodes.contains(v));
    lemma_not_isolated(pre, v);
    let u = choose|u: Coord| #[trigger] pre.adjacent(v, u);
    let k = edge_key(v, u);
    lemma_edge_key(v, u);
    assert(pre.edges.contains_key(k));
    assert(cur.dom().contains(k));
    crate::graph::lemma_connected_basics(pre.edges, v, u);
    assert(crate::graph::adjacent(pre.edges, v, u));
    assert(pre.nodes.contains(u));
    let ju = choose|ju: int| 0 <= ju < cs.len() && #[trigger] cs[ju].contains(u);
    assert(cs[c].contains(v) && cs[ju].contains(u));
    assert(ju == c);
    assert(cs[c].contains(k.0));
    assert(listed(pairs, n, k));
    let w = choose|w: int| 0 <= w < n && edge_key((#[trigger] pairs[w]).0, pairs[w].1) == k;
    let name = pre.edges[k].name().unwrap();
    assert(cur[k] == pre.edges[k]);
    assert(!tk.contains(name)) by {
        if tk.contains(name) {
            let i = choose|i: int| 0 <= i < taken.len() && taken[i] == name;
            assert(kept_or_minted(pre, cs, i, taken[i], lm0, lm1));
            let k0 = choose|k0: EdgeKey| #[trigger]
                pre.edges.contains_key(k0) && cs[i].contains(k0.0) && pre.edges[k0].name() == Some(
                    name,
                );
            lemma_unique(pre.edges, k0, k);
            assert(cs[i].contains(k0.0) && cs[c].contains(k.0));
        }
    }
    assert(offers(cur, pairs, tk, w, name));
    assert(candidate(cur, pairs, tk, n, name));
}

/// When every component has its name, the names are in order.
pub proof fn lemma_relabel_done(
    pre: Wiring,
    cur: Map<EdgeKey, NetEdge>,
    cs: Seq<Seq<Coord>>,
    taken: Seq<Seq<char>>,
    lm0: LabelManager,
    lm: LabelManager,
)
    requires
        pre.wf(),
        is_component_list(pre.nodes, pre.edges, cs),
        relabel_inv(pre, cur, cs, taken, lm0, lm),
        taken.len() == cs.len(),
    ensures
        all_named(cur),
        names_uniform(cur),
        names_safe(pre.edges, lm0) ==> names_unique(cur) && names_safe(cur, lm),
        forall|k: EdgeKey| #[trigger]
            cur.contains_key(k) ==> (exists|k0: EdgeKey| #[trigger]
                pre.edges.contains_key(k0) && connected(pre.edges, k0.0, k.0) && pre.edges[k0].name()
                    == cur[k].name()) || (!lm0.registered().contains(cur[k].label.unwrap()@)
                && lm.registered().contains(cur[k].label.unwrap()@)),
{
    reveal(is_component_list);
    crate::graph::lemma_connected_same_keys(pre.edges, cur);
    assert forall|k: EdgeKey| #[trigger] cur.contains_key(k) implies pre.edges.contains_key(k)
        && exists|i: int| 0 <= i < cs.len() && #[trigger] cs[i].contains(k.0) by {
        assert(cur.dom().contains(k));
        assert(pre.edges.contains_key(k));
        assert(pre.nodes.contains(k.0));
    }
    assert forall|k: EdgeKey| #[trigger] cur.contains_key(k) implies cur[k].label.is_some() by {
        let i = choose|i: int| 0 <= i < cs.len() && #[trigger] cs[i].contains(k.0);
        assert(cur[k].name() == Some(taken[i]));
    }
    reveal(names_uniform);
    reveal(names_unique);
    assert forall|k1: EdgeKey, k2: EdgeKey|
        #[trigger] cur.contains_key(k1) && #[trigger] cur.contains_key(k2) && connected(
            cur,
            k1.0,
            k2.0,
        ) implies cur[k1].name() == cur[k2].name() by {
        let i = choose|i: int| 0 <= i < cs.len() && #[trigger] cs[i].contains(k1.0);
        let j = choose|j: int| 0 <= j < cs.len() && #[trigger] cs[j].contains(k2.0);
        assert(connected(pre.edges, k1.0, k2.0));
        assert(cs[i].contains(k1.0) && cs[j].contains(k2.0));
        assert(i == j);
        assert(cur[k1].name() == Some(taken[i]));
        assert(cur[k2].name() == Some(taken[j]));
    }
    if names_safe(pre.edges, lm0) {
        assert forall|k1: EdgeKey, k2: EdgeKey|
            #[trigger] cur.contains_key(k1) && #[trigger] cur.contains_key(k2) && cur[k1].name()
                == cur[k2].name() implies connected(cur, k1.0, k2.0) by {
            let i = choose|i: int| 0 <= i < cs.len() && #[trigger] cs[i].contains(k1.0);
            let j = choose|j: int| 0 <= j < cs.len() && #[trigger] cs[j].contains(k2.0);
            assert(cur[k1].name() == Some(taken[i]));
            assert(cur[k2].name() == Some(taken[j]));
            if i < j {
                assert(taken[i] != taken[j]);
            } else if j < i {
                assert(taken[j] != taken[i]);
            }
            assert(cs[i].contains(k1.0) && cs[j].contains(k2.0));
            assert(connected(pre.edges, k1.0, k2.0));
        }
    }
    assert forall|k: EdgeKey| #[trigger] cur.contains_key(k) implies (exists|k0: EdgeKey| #[trigger]
        pre.edges.contains_key(k0) && connected(pre.edges, k0.0, k.0) && pre.edges[k0].name()
            == cur[k].name()) || (!lm0.registered().contains(cur[k].label.unwrap()@)
        && lm.registered().contains(cur[k].label.unwrap()@)) by {
        let i = choose|i: int| 0 <= i < cs.len() && #[trigger] cs[i].contains(k.0);
        assert(cur[k].name() == Some(taken[i]));
        assert(kept_or_minted(pre, cs, i, taken[i], lm0, lm));
        if exists|k0: EdgeKey| #[trigger]
            pre.edges.contains_key(k0) && cs[i].contains(k0.0) && pre.edges[k0].name() == Some(
                taken[i],
            ) {
            let k0 = choose|k0: EdgeKey| #[trigger]
                pre.edges.contains_key(k0) && cs[i].contains(k0.0) && pre.edges[k0].name() == Some(
                    taken[i],
                );
            assert(cs[i].contains(k0.0) && cs[i].contains(k.0));
            assert(connected(pre.edges, k0.0, k.0));
        }
    }
}

/// Names the nets. The components are taken in the order in which the
/// graph's component search returns them. Each gets the least of the names
/// that stand on its segments and that no component before it has got; where
/// there is none, a new permanent name. Afterwards every segment has a name,
/// connected segments the same.
pub fn relabel(g: &mut WireGraph, lm: &mut LabelManager)
    requires
        graph_ok(*old(g)),
        wiring_of(*old(g)).wf(),
        old(lm).wf(),
    ensures
        graph_ok(*final(g)),
        wiring_of(*final(g)).wf(),
        final(lm).wf(),
        graph_node_list(*final(g)) == graph_node_list(*old(g)),
        same_geometry(graph_edges(*old(g)), graph_edges(*final(g))),
        all_named(graph_edges(*final(g))),
        names_uniform(graph_edges(*final(g))),
        names_safe(graph_edges(*old(g)), *old(lm)) ==> names_unique(graph_edges(*final(g)))
            && names_safe(graph_edges(*final(g)), *final(lm)),
        old(lm).registered().subset_of(final(lm).registered()),
        final(lm).floating_watermark() == old(lm).floating_watermark(),
        old(lm).watermark() <= final(lm).watermark(),
        forall|k: EdgeKey| #[trigger]
            graph_edges(*final(g)).contains_key(k) ==> (exists|k0: EdgeKey| #[trigger]
                graph_edges(*old(g)).contains_key(k0) && connected(graph_edges(*old(g)), k0.0, k.0)
                    && graph_edges(*old(g))[k0].name() == graph_edges(*final(g))[k].name()) || (
            !old(lm).registered().contains(graph_edges(*final(g))[k].label.unwrap()@)
                && final(lm).registered().contains(graph_edges(*final(g))[k].label.unwrap()@)),
        settled(wiring_of(*old(g))) ==> *final(lm) == *old(lm) && forall|k: EdgeKey| #[trigger]
            graph_edges(*old(g)).contains_key(k) ==> graph_edges(*final(g))[k].name() == graph_edges(
                *old(g),
            )[k].name(),
        is_component_list(
            graph_nodes(*old(g)),
            graph_edges(*old(g)),
            component_list(graph_node_list(*old(g))),
        ),
        exists|given: Seq<Seq<char>>, lms: Seq<LabelManager>| #[trigger]
            named_by_rule(
                graph_edges(*old(g)),
                graph_edges(*final(g)),
                component_list(graph_node_list(*old(g))),
                given,
                lms,
                *old(lm),
                *final(lm),
            ),
{
    let comps = graph_components(g);
    let ghost pre = wiring_of(*g);
    let ghost lm0 = *lm;
    let ghost cs = views_of(comps@);
    let ghost mut lms: Seq<LabelManager> = seq![lm0];
    let mut taken: Vec<String> = Vec::new();
    let mut c: usize = 0;
    proof {
        assert(texts(taken@) =~= Seq::<Seq<char>>::empty());
        assert(relabel_inv(pre, pre.edges, cs, texts(taken@), lm0, lm0));
    }
    while c < comps.len()
        invariant
            c <= comps.len(),
            c == taken@.len(),
            cs == views_of(comps@),
            pre == wiring_of(*old(g)),
            lm0 == *old(lm),
            pre.wf(),
            is_component_list(pre.nodes, pre.edges, cs),
            graph_ok(*g),
            lm.wf(),
            wiring_of(*g).wf(),
            graph_node_list(*g) == graph_node_list(*old(g)),
            relabel_inv(pre, graph_edges(*g), cs, texts(taken@), lm0, *lm),
            rule_upto(pre.edges, cs, texts(taken@), lms),
            lms[0] == lm0,
            lms.last() == *lm,
        decreases comps.len() - c,
    {
        let ghost cur = graph_edges(*g);
        let ghost lm1 = *lm;
        let ghost before = taken@;
        let edges = nodes_to_edge_nodes(g, &comps[c]);
        proof {
            reveal(is_component_list);
            assert(cs[c as int] == comps@[c as int]@);
            assert(cur.dom() == pre.edges.dom());
            crate::graph::lemma_connected_same_keys(pre.edges, cur);
            assert(is_component_list(graph_nodes(*g), cur, cs)) by {
                assert(graph_nodes(*g) == pre.nodes);
            }
            lemma_component_listing(*g, cs, c as int);
            assert forall|k: EdgeKey| #[trigger] pre.edges.contains_key(k) implies (listed(
                edges@,
                edges@.len() as int,
                k,
            ) <==> cs[c as int].contains(k.0)) by {
                assert(cur.dom().contains(k));
                assert(cur.contains_key(k));
            }
            lemma_names_of(before);
            assert(names_of(before) == texts(before).to_set());
        }
        let label = unify_labels(g, lm, &edges, &taken);
        proof {
            let nxt = graph_edges(*g);
            lemma_step_rule(pre, cur, cs, texts(before), lms, lm1, *lm, edges@, label);
            lms = lms.push(*lm);
            lemma_relabel_step(pre, cur, nxt, cs, texts(before), lm0, lm1, *lm, edges@, label);
            lemma_relabels_wf(
                Wiring { nodes: pre.nodes, edges: cur },
                wiring_of(*g),
                edges@,
                edges@.len() as int,
                label,
            );
            assert(texts(before.push(label)) =~= texts(before).push(label@));
        }
        taken.push(label);
        c += 1;
    }
    proof {
        lemma_relabel_done(pre, graph_edges(*g), cs, texts(taken@), lm0, *lm);
        assert(named_by_rule(pre.edges, graph_edges(*g), cs, texts(taken@), lms, lm0, *lm)) by {
            reveal(named_by_rule);
            assert forall|k: EdgeKey, i: int|
                graph_edges(*g).contains_key(k) && 0 <= i < cs.len() && #[trigger] cs[i].contains(
                    k.0,
                ) implies graph_edges(*g)[k].name() == Some(texts(taken@)[i]) by {
                assert(graph_edges(*g).dom().contains(k));
                assert(pre.edges.contains_key(k));
            }
        }
    }
}

} // verus!
