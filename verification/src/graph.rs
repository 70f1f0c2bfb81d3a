//! The wire graph: an undirected `petgraph` graph map whose nodes are grid
//! coordinates and whose edges carry wire segments.
//!
//! The graph map itself is not verified. What this library relies on is
//! written down here, once, as the contracts of the functions that call it.

use crate::edge::NetEdge;
use petgraph::algo::tarjan_scc;
use petgraph::graphmap::GraphMap;
use petgraph::Undirected;
use std::hash::BuildHasher;
use vstd::prelude::*;

verus! {

/// `petgraph`'s graph map, as a type whose values this library hands to
/// `petgraph` and never looks into.
#[verifier::external_type_specification]
#[verifier::external_body]
#[verifier::reject_recursive_types(N)]
#[verifier::reject_recursive_types(E)]
#[verifier::reject_recursive_types(Ty)]
#[verifier::reject_recursive_types(S)]
pub struct ExGraphMap<N, E, Ty, S: BuildHasher>(GraphMap<N, E, Ty, S>);

/// `petgraph`'s marker for graphs whose edges have no direction.
#[verifier::external_type_specification]
#[verifier::external_body]
pub struct ExUndirected(Undirected);

/// A grid coordinate in the form in which it keys the graph.
pub type Coord = (i16, i16);

/// The two ends of an edge, the smaller one first.
pub type EdgeKey = (Coord, Coord);

/// The graph of wire segments between grid coordinates.
pub type WireGraph = GraphMap<Coord, NetEdge, Undirected>;

/// The edges that the graph holds, in the order in which it hands them out:
/// for each the two ends as the graph keeps them, and the payload.
pub uninterp spec fn graph_edge_list(g: WireGraph) -> Seq<(Coord, Coord, NetEdge)>;

/// The nodes that the graph holds, in the order in which it hands them out,
/// each with its neighbours in the order in which the graph hands those out.
pub uninterp spec fn graph_node_list(g: WireGraph) -> Seq<(Coord, Seq<Coord>)>;

/// The connected components that `tarjan_scc` finds in a graph with the
/// given nodes and neighbour lists, in the order in which it returns them.
pub uninterp spec fn component_list(nodes: Seq<(Coord, Seq<Coord>)>) -> Seq<Seq<Coord>>;

/// The order of coordinate pairs: by the first coordinate, then the second.
pub open spec fn coord_le(a: Coord, b: Coord) -> bool {
    a.0 < b.0 || (a.0 == b.0 && a.1 <= b.1)
}

/// The key under which the graph keeps an edge between `a` and `b`: the
/// two ends, the smaller first.
pub open spec fn edge_key(a: Coord, b: Coord) -> EdgeKey {
    if coord_le(a, b) {
        (a, b)
    } else {
        (b, a)
    }
}

/// An index at which `k` stands in the edge list.
pub open spec fn index_of_key(el: Seq<(Coord, Coord, NetEdge)>, k: EdgeKey) -> int {
    choose|i: int| 0 <= i < el.len() && (#[trigger] el[i]).0 == k.0 && el[i].1 == k.1
}

/// The edge list as a table from key to payload.
pub open spec fn edge_table(el: Seq<(Coord, Coord, NetEdge)>) -> Map<EdgeKey, NetEdge> {
    Map::new(
        |k: EdgeKey| exists|i: int| 0 <= i < el.len() && (#[trigger] el[i]).0 == k.0 && el[i].1 == k.1,
        |k: EdgeKey| el[index_of_key(el, k)].2,
    )
}

/// The nodes of a node list as a set.
pub open spec fn node_set(nl: Seq<(Coord, Seq<Coord>)>) -> Set<Coord> {
    Set::new(|n: Coord| exists|i: int| 0 <= i < nl.len() && (#[trigger] nl[i]).0 == n)
}

/// The neighbours of `a` as the node list gives them; none if `a` is no node.
pub open spec fn neighbors_in(nl: Seq<(Coord, Seq<Coord>)>, a: Coord) -> Seq<Coord> {
    if exists|i: int| 0 <= i < nl.len() && (#[trigger] nl[i]).0 == a {
        nl[choose|i: int| 0 <= i < nl.len() && (#[trigger] nl[i]).0 == a].1
    } else {
        Seq::empty()
    }
}

/// The edges of the graph as a table from key to payload.
pub open spec fn graph_edges(g: WireGraph) -> Map<EdgeKey, NetEdge> {
    edge_table(graph_edge_list(g))
}

/// The nodes of the graph as a set.
pub open spec fn graph_nodes(g: WireGraph) -> Set<Coord> {
    node_set(graph_node_list(g))
}

/// What holds of the two lists of every graph map: no key and no node is
/// listed twice, every key has its smaller end first, no neighbour list
/// names a node twice, a node's neighbours are exactly the nodes it shares
/// an edge with, and both ends of every edge are nodes.
pub open spec fn lists_ok(nl: Seq<(Coord, Seq<Coord>)>, el: Seq<(Coord, Coord, NetEdge)>) -> bool {
    &&& forall|i: int, j: int|
        0 <= i < j < el.len() ==> !((#[trigger] el[i]).0 == (#[trigger] el[j]).0 && el[i].1 == el[j].1)
    &&& forall|i: int| 0 <= i < el.len() ==> coord_le((#[trigger] el[i]).0, el[i].1)
    &&& forall|i: int, j: int| 0 <= i < j < nl.len() ==> (#[trigger] nl[i]).0 != (#[trigger] nl[j]).0
    &&& forall|i: int| 0 <= i < nl.len() ==> (#[trigger] nl[i]).1.no_duplicates()
    &&& forall|i: int, b: Coord|
        0 <= i < nl.len() ==> (#[trigger] nl[i].1.contains(b) <==> edge_table(el).contains_key(
            edge_key(nl[i].0, b),
        ))
    &&& forall|i: int|
        0 <= i < el.len() ==> node_set(nl).contains((#[trigger] el[i]).0) && node_set(nl).contains(
            el[i].1,
        )
}

/// The two lists of the graph are as `lists_ok` says.
pub open spec fn graph_ok(g: WireGraph) -> bool {
    lists_ok(graph_node_list(g), graph_edge_list(g))
}

/// The table holds an edge between `a` and `b`.
pub open spec fn adjacent(t: Map<EdgeKey, NetEdge>, a: Coord, b: Coord) -> bool {
    t.contains_key(edge_key(a, b))
}

/// Each step of `path` goes along an edge of the table.
pub open spec fn is_walk(t: Map<EdgeKey, NetEdge>, path: Seq<Coord>) -> bool {
    &&& path.len() >= 1
    &&& forall|i: int| 0 <= i < path.len() - 1 ==> adjacent(t, #[trigger] path[i], path[i + 1])
}

/// A walk along edges of the table leads from `a` to `b`.
#[verifier::opaque]
pub open spec fn connected(t: Map<EdgeKey, NetEdge>, a: Coord, b: Coord) -> bool {
    exists|path: Seq<Coord>| #[trigger] is_walk(t, path) && path[0] == a && path.last() == b
}

/// `cs` lists the connected components of the graph with nodes `nodes` and
/// edges `t`: none of them is empty, every node stands in exactly one of
/// them, once, and two nodes stand in the same one exactly if a walk
/// connects them.
#[verifier::opaque]
pub open spec fn is_component_list(
    nodes: Set<Coord>,
    t: Map<EdgeKey, NetEdge>,
    cs: Seq<Seq<Coord>>,
) -> bool {
    &&& forall|i: int, n: Coord|
        0 <= i < cs.len() && #[trigger] cs[i].contains(n) ==> nodes.contains(n)
    &&& forall|n: Coord| #[trigger]
        nodes.contains(n) ==> exists|i: int| 0 <= i < cs.len() && #[trigger] cs[i].contains(n)
    &&& forall|i: int| 0 <= i < cs.len() ==> (#[trigger] cs[i]).no_duplicates()
    &&& forall|i: int| 0 <= i < cs.len() ==> (#[trigger] cs[i]).len() > 0
    &&& forall|i: int, j: int, n: Coord, m: Coord|
        0 <= i < cs.len() && 0 <= j < cs.len() && #[trigger] cs[i].contains(n)
            && #[trigger] cs[j].contains(m) ==> ((i == j) <==> connected(t, n, m))
}

/// The table without the edges that end at `n`.
pub open spec fn without_node(t: Map<EdgeKey, NetEdge>, n: Coord) -> Map<EdgeKey, NetEdge> {
    Map::new(|k: EdgeKey| t.contains_key(k) && k.0 != n && k.1 != n, |k: EdgeKey| t[k])
}

/// The contents of each vector of a list of vectors.
pub open spec fn views_of(vs: Seq<Vec<Coord>>) -> Seq<Seq<Coord>> {
    vs.map_values(|v: Vec<Coord>| v@)
}

/// Calls `GraphMap::new`: a graph without nodes and edges.
#[verifier::external_body]
pub(crate) fn graph_new() -> (g: WireGraph)
    ensures
        graph_node_list(g) == Seq::<(Coord, Seq<Coord>)>::empty(),
        graph_edge_list(g) == Seq::<(Coord, Coord, NetEdge)>::empty(),
{
    GraphMap::new()
}

/// Calls `GraphMap::clear`, which removes all nodes and edges.
#[verifier::external_body]
pub(crate) fn graph_clear(g: &mut WireGraph)
    ensures
        graph_node_list(*final(g)) == Seq::<(Coord, Seq<Coord>)>::empty(),
        graph_edge_list(*final(g)) == Seq::<(Coord, Coord, NetEdge)>::empty(),
{
    g.clear()
}

/// Calls `GraphMap::add_edge`. The edge between `a` and `b` carries `w`
/// afterwards, whether or not there was one; `a` and `b` are nodes; nothing
/// else changes. Where there was such an edge, its payload is returned and
/// the nodes and their neighbour lists stay as they are.
#[verifier::external_body]
pub(crate) fn graph_add_edge(g: &mut WireGraph, a: Coord, b: Coord, w: NetEdge) -> (prev: Option<
    NetEdge,
>)
    ensures
        graph_ok(*final(g)),
        graph_edges(*final(g)) == graph_edges(*old(g)).insert(edge_key(a, b), w),
        graph_nodes(*final(g)) == graph_nodes(*old(g)).insert(a).insert(b),
        graph_edges(*old(g)).contains_key(edge_key(a, b)) ==> prev == Some(
            graph_edges(*old(g))[edge_key(a, b)],
        ) && graph_node_list(*final(g)) == graph_node_list(*old(g)),
        !graph_edges(*old(g)).contains_key(edge_key(a, b)) ==> prev.is_none(),
{
    g.add_edge(a, b, w)
}

/// Calls `GraphMap::remove_edge`. The edge between `a` and `b` is gone
/// afterwards and its payload returned, if there was one; the nodes stay,
/// and so do the other edges.
#[verifier::external_body]
pub(crate) fn graph_remove_edge(g: &mut WireGraph, a: Coord, b: Coord) -> (prev: Option<NetEdge>)
    ensures
        graph_ok(*final(g)),
        graph_edges(*final(g)) == graph_edges(*old(g)).remove(edge_key(a, b)),
        graph_nodes(*final(g)) == graph_nodes(*old(g)),
        graph_edges(*old(g)).contains_key(edge_key(a, b)) ==> prev == Some(
            graph_edges(*old(g))[edge_key(a, b)],
        ),
        !graph_edges(*old(g)).contains_key(edge_key(a, b)) ==> prev.is_none(),
{
    g.remove_edge(a, b)
}

/// Calls `GraphMap::remove_node`. The node `n` is gone afterwards, with
/// every edge that ended at it; the other nodes and edges stay. Returns
/// whether `n` was a node.
#[verifier::external_body]
pub(crate) fn graph_remove_node(g: &mut WireGraph, n: Coord) -> (was: bool)
    ensures
        graph_ok(*final(g)),
        graph_edges(*final(g)) == without_node(graph_edges(*old(g)), n),
        graph_nodes(*final(g)) == graph_nodes(*old(g)).remove(n),
        was == graph_nodes(*old(g)).contains(n),
{
    g.remove_node(n)
}

/// Calls `GraphMap::all_edges` and copies out what it yields: every edge
/// with its two ends, in the graph's order.
#[verifier::external_body]
pub(crate) fn graph_all_edges(g: &WireGraph) -> (r: Vec<(Coord, Coord, NetEdge)>)
    ensures
        r@ == graph_edge_list(*g),
{
    g.all_edges().map(|(a, b, w)| (a, b, w.clone())).collect()
}

/// Calls `GraphMap::nodes` and collects what it yields: every node, in the
/// graph's order.
#[verifier::external_body]
pub(crate) fn graph_node_keys(g: &WireGraph) -> (r: Vec<Coord>)
    ensures
        r@ == graph_node_list(*g).map_values(|e: (Coord, Seq<Coord>)| e.0),
{
    g.nodes().collect()
}

/// Calls `GraphMap::neighbors` and collects what it yields: the neighbours
/// of `a` in the graph's order, none if `a` is no node.
#[verifier::external_body]
pub(crate) fn graph_neighbors(g: &WireGraph, a: Coord) -> (r: Vec<Coord>)
    ensures
        r@ == neighbors_in(graph_node_list(*g), a),
{
    g.neighbors(a).collect()
}

/// Calls `GraphMap::edge_weight` and copies the payload of the edge between
/// `a` and `b`, if there is one.
#[verifier::external_body]
pub(crate) fn graph_edge_weight(g: &WireGraph, a: Coord, b: Coord) -> (r: Option<NetEdge>)
    ensures
        r == (if graph_edges(*g).contains_key(edge_key(a, b)) {
            Some(graph_edges(*g)[edge_key(a, b)])
        } else {
            None
        }),
{
    g.edge_weight(a, b).cloned()
}

/// Calls `tarjan_scc`, which for an undirected graph returns its connected
/// components. Which component comes first, and which node first within
/// one, follows from the graph's own order of nodes and neighbours.
#[verifier::external_body]
pub(crate) fn graph_components(g: &WireGraph) -> (r: Vec<Vec<Coord>>)
    ensures
        views_of(r@) == component_list(graph_node_list(*g)),
        is_component_list(graph_nodes(*g), graph_edges(*g), views_of(r@)),
{
    tarjan_scc(g)
}

/// With no key listed twice, the table holds exactly the listed edges.
pub proof fn lemma_table_of_list(el: Seq<(Coord, Coord, NetEdge)>)
    requires
        forall|i: int, j: int|
            0 <= i < j < el.len() ==> !((#[trigger] el[i]).0 == (#[trigger] el[j]).0 && el[i].1
                == el[j].1),
    ensures
        forall|i: int|
            0 <= i < el.len() ==> edge_table(el).contains_key(((#[trigger] el[i]).0, el[i].1))
                && edge_table(el)[(el[i].0, el[i].1)] == el[i].2,
        forall|k: EdgeKey| #[trigger]
            edge_table(el).contains_key(k) ==> 0 <= index_of_key(el, k) < el.len() && el[index_of_key(
                el,
                k,
            )].0 == k.0 && el[index_of_key(el, k)].1 == k.1,
{
    assert forall|i: int| 0 <= i < el.len() implies edge_table(el).contains_key(
        ((#[trigger] el[i]).0, el[i].1),
    ) && edge_table(el)[(el[i].0, el[i].1)] == el[i].2 by {
        let k = (el[i].0, el[i].1);
        let j = index_of_key(el, k);
        if i < j {
            assert(!(el[i].0 == el[j].0 && el[i].1 == el[j].1));
        } else if j < i {
            assert(!(el[j].0 == el[i].0 && el[j].1 == el[i].1));
        }
    }
}

/// An empty graph is as `lists_ok` says, and has no nodes and no edges.
pub proof fn lemma_empty_lists()
    ensures
        lists_ok(Seq::<(Coord, Seq<Coord>)>::empty(), Seq::<(Coord, Coord, NetEdge)>::empty()),
        edge_table(Seq::<(Coord, Coord, NetEdge)>::empty()) == Map::<EdgeKey, NetEdge>::empty(),
        node_set(Seq::<(Coord, Seq<Coord>)>::empty()) == Set::<Coord>::empty(),
{
    let el = Seq::<(Coord, Coord, NetEdge)>::empty();
    let nl = Seq::<(Coord, Seq<Coord>)>::empty();
    assert(edge_table(el) =~= Map::<EdgeKey, NetEdge>::empty());
    assert(node_set(nl) =~= Set::<Coord>::empty());
}

/// The key of an edge does not depend on the direction in which its ends
/// are named, and its two parts are the two ends.
pub proof fn lemma_edge_key(a: Coord, b: Coord)
    ensures
        edge_key(a, b) == edge_key(b, a),
        edge_key(a, b) == (a, b) || edge_key(a, b) == (b, a),
        coord_le(edge_key(a, b).0, edge_key(a, b).1),
{
}

/// The neighbours that the graph lists for `v` are, each once, the nodes
/// that share an edge with `v`.
pub proof fn lemma_neighbors(g: WireGraph, v: Coord)
    requires
        graph_ok(g),
    ensures
        neighbors_in(graph_node_list(g), v).no_duplicates(),
        forall|b: Coord| #[trigger]
            neighbors_in(graph_node_list(g), v).contains(b) <==> graph_edges(g).contains_key(
                edge_key(v, b),
            ),
{
    let nl = graph_node_list(g);
    let el = graph_edge_list(g);
    lemma_table_of_list(el);
    if exists|i: int| 0 <= i < nl.len() && (#[trigger] nl[i]).0 == v {
        let i = choose|i: int| 0 <= i < nl.len() && (#[trigger] nl[i]).0 == v;
        assert forall|b: Coord| #[trigger]
            neighbors_in(nl, v).contains(b) <==> graph_edges(g).contains_key(edge_key(v, b)) by {
            assert(nl[i].1.contains(b) <==> edge_table(el).contains_key(edge_key(nl[i].0, b)));
        }
    } else {
        assert forall|b: Coord| #[trigger]
            neighbors_in(nl, v).contains(b) <==> graph_edges(g).contains_key(edge_key(v, b)) by {
            if graph_edges(g).contains_key(edge_key(v, b)) {
                let j = index_of_key(el, edge_key(v, b));
                assert(node_set(nl).contains(el[j].0) && node_set(nl).contains(el[j].1));
                assert(node_set(nl).contains(v));
            }
        }
    }
}

/// The nodes that the graph lists are, each once, its nodes.
pub proof fn lemma_node_keys(g: WireGraph)
    requires
        graph_ok(g),
    ensures
        graph_node_list(g).map_values(|e: (Coord, Seq<Coord>)| e.0).no_duplicates(),
        forall|n: Coord| #[trigger]
            graph_nodes(g).contains(n) <==> graph_node_list(g).map_values(
                |e: (Coord, Seq<Coord>)| e.0,
            ).contains(n),
{
    let nl = graph_node_list(g);
    let keys = nl.map_values(|e: (Coord, Seq<Coord>)| e.0);
    assert forall|i: int, j: int| 0 <= i < keys.len() && 0 <= j < keys.len() && i != j implies keys[i]
        != keys[j] by {
        if i < j {
            assert(nl[i].0 != nl[j].0);
        } else {
            assert(nl[j].0 != nl[i].0);
        }
    }
    assert forall|n: Coord| #[trigger] graph_nodes(g).contains(n) <==> keys.contains(n) by {
        if graph_nodes(g).contains(n) {
            let i = choose|i: int| 0 <= i < nl.len() && (#[trigger] nl[i]).0 == n;
            assert(keys[i] == n);
        }
        if keys.contains(n) {
            let i = choose|i: int| 0 <= i < keys.len() && keys[i] == n;
            assert(nl[i].0 == n);
        }
    }
}

/// Which nodes a walk connects depends only on which edges there are, not
/// on what they carry.
pub proof fn lemma_connected_same_keys(t1: Map<EdgeKey, NetEdge>, t2: Map<EdgeKey, NetEdge>)
    requires
        t1.dom() == t2.dom(),
    ensures
        forall|a: Coord, b: Coord| connected(t1, a, b) == connected(t2, a, b),
{
    reveal(connected);
    assert forall|path: Seq<Coord>| is_walk(t1, path) == is_walk(t2, path) by {
        assert forall|a: Coord, b: Coord| adjacent(t1, a, b) == adjacent(t2, a, b) by {
            assert(t1.dom().contains(edge_key(a, b)) == t2.dom().contains(edge_key(a, b)));
        }
    }
    assert forall|a: Coord, b: Coord| connected(t1, a, b) == connected(t2, a, b) by {
        if connected(t1, a, b) {
            let path = choose|path: Seq<Coord>| #[trigger]
                is_walk(t1, path) && path[0] == a && path.last() == b;
            assert(is_walk(t2, path));
        }
        if connected(t2, a, b) {
            let path = choose|path: Seq<Coord>| #[trigger]
                is_walk(t2, path) && path[0] == a && path.last() == b;
            assert(is_walk(t1, path));
        }
    }
}

/// A node is connected to itself, and the two ends of an edge to each other.
pub proof fn lemma_connected_basics(t: Map<EdgeKey, NetEdge>, a: Coord, b: Coord)
    ensures
        connected(t, a, a),
        adjacent(t, a, b) ==> connected(t, a, b) && connected(t, b, a),
{
    reveal(connected);
    let one = seq![a];
    assert(is_walk(t, one) && one[0] == a && one.last() == a);
    if adjacent(t, a, b) {
        lemma_edge_key(a, b);
        let two = seq![a, b];
        assert(is_walk(t, two) && two[0] == a && two.last() == b);
        let back = seq![b, a];
        assert(is_walk(t, back) && back[0] == b && back.last() == a);
    }
}

/// Being connected does not depend on the direction.
pub proof fn lemma_connected_symmetric(t: Map<EdgeKey, NetEdge>, a: Coord, b: Coord)
    requires
        connected(t, a, b),
    ensures
        connected(t, b, a),
{
    reveal(connected);
    let path = choose|path: Seq<Coord>| #[trigger] is_walk(t, path) && path[0] == a && path.last() == b;
    let n = path.len() as int;
    let back = Seq::new(path.len(), |i: int| path[n - 1 - i]);
    assert forall|i: int| 0 <= i < back.len() - 1 implies adjacent(t, #[trigger] back[i], back[i + 1]) by {
        let j = n - 2 - i;
        assert(adjacent(t, path[j], path[j + 1]));
        lemma_edge_key(path[j], path[j + 1]);
    }
    assert(is_walk(t, back) && back[0] == b && back.last() == a);
}

/// Two walks that meet make one.
pub proof fn lemma_connected_transitive(t: Map<EdgeKey, NetEdge>, a: Coord, b: Coord, c: Coord)
    requires
        connected(t, a, b),
        connected(t, b, c),
    ensures
        connected(t, a, c),
{
    reveal(connected);
    let pb = choose|path: Seq<Coord>| #[trigger] is_walk(t, path) && path[0] == a && path.last() == b;
    let pc = choose|path: Seq<Coord>| #[trigger] is_walk(t, path) && path[0] == b && path.last() == c;
    let tail = pc.skip(1);
    let path = pb + tail;
    assert forall|i: int| 0 <= i < path.len() - 1 implies adjacent(t, #[trigger] path[i], path[i + 1]) by {
        if i < pb.len() - 1 {
            assert(path[i] == pb[i] && path[i + 1] == pb[i + 1]);
        } else if i == pb.len() - 1 {
            assert(path[i] == pb[i]);
            assert(path[i + 1] == pc[1]);
            assert(adjacent(t, pc[0], pc[1]));
        } else {
            let j = i - pb.len() + 1;
            assert(path[i] == pc[j] && path[i + 1] == pc[j + 1]);
            assert(adjacent(t, pc[j], pc[j + 1]));
        }
    }
    assert(is_walk(t, path) && path[0] == a && path.last() == c) by {
        if tail.len() == 0 {
            assert(path =~= pb);
            assert(pc.len() == 1);
        } else {
            assert(path.last() == pc.last());
        }
    }
}

} // verus!
