//! What holds of pruning and of the net names, whatever the wires are.

use crate::edge::NetEdge;
use crate::geometry::SSPoint;
use crate::graph::{connected, edge_key, graph_edge_list, lemma_table_of_list, Coord, EdgeKey};
use crate::labels::{lemma_floating_name_injective, LabelManager};
use crate::nets::Nets;
use crate::prune::{pruned_from, same_nets};
use crate::relabel::{lemma_uniform, lemma_unique, names_safe, settled};
use crate::seqs::{lemma_filter_order, lemma_filter_place};
use crate::wiring::{cut_at_all, key_passes, lemma_not_isolated, lemma_waypoint, Wiring};
use vstd::prelude::*;

verus! {

/// Pruning twice is pruning once: where `g1` is what pruning with the
/// points `extras` makes of `g0`, and `g2` what pruning with the same
/// points makes of `g1`, the two have the same nodes, segments between the
/// same nodes, and the same names on them, and the second pruning leaves
/// the registry alone. This is stated for wirings `g0` on which no segment
/// carries a name that the registry does not hold but could still give out.
pub proof fn law_prune_idempotent(
    g0: Wiring,
    lm0: LabelManager,
    extras: Seq<SSPoint>,
    g1: Wiring,
    lm1: LabelManager,
    g2: Wiring,
    lm2: LabelManager,
)
    requires
        names_safe(g0.edges, lm0),
        pruned_from(g0, lm0, extras, g1, lm1),
        pruned_from(g1, lm1, extras, g2, lm2),
    ensures
        same_nets(g1, g2),
        lm2 == lm1,
{
    assert(settled(g1));
}

/// What pruning makes of the wires is told by the wires alone. Let `a` be
/// what pruning with the points `extras` makes of `pre`. Then any sound
/// wiring `b` that covers what `pre` covers, has no node inside a segment,
/// and has the nodes that pruning keeps, has the nodes of `a` and segments
/// between the same nodes as `a`.
pub proof fn law_prune_shape_determined(
    pre: Wiring,
    lm0: LabelManager,
    extras: Seq<SSPoint>,
    a: Wiring,
    la: LabelManager,
    b: Wiring,
)
    requires
        pruned_from(pre, lm0, extras, a, la),
        b.wf(),
        b.bisected(),
        b.same_cover(pre),
        crate::shape::exact_nodes(pre, extras, b),
    ensures
        a.nodes == b.nodes,
        a.edges.dom() == b.edges.dom(),
{
    reveal(crate::shape::exact_nodes);
    assert(a.nodes =~= b.nodes);
    assert(a.same_cover(b)) by {
        reveal(Wiring::same_cover);
        assert forall|p: SSPoint, q: SSPoint| crate::wiring::next_to(p, q) implies #[trigger] a.links(
            p,
            q,
        ) == #[trigger] b.links(p, q) by {
            assert(a.links(p, q) == pre.links(p, q));
            assert(b.links(p, q) == pre.links(p, q));
        }
    }
    crate::shape::lemma_same_shape_same_keys(a, b);
}

/// After pruning, two segments that a walk along segments connects have
/// the same name.
pub proof fn law_label_uniformity(
    pre: Wiring,
    lm0: LabelManager,
    extras: Seq<SSPoint>,
    post: Wiring,
    lm: LabelManager,
    k1: EdgeKey,
    k2: EdgeKey,
)
    requires
        pruned_from(pre, lm0, extras, post, lm),
        post.edges.contains_key(k1),
        post.edges.contains_key(k2),
        connected(post.edges, k1.0, k2.0),
    ensures
        post.edges[k1].name().is_some(),
        post.edges[k1].name() == post.edges[k2].name(),
{
    lemma_uniform(post.edges, k1, k2);
}

/// After pruning, two segments that no walk along segments connects have
/// different names. This is stated for wirings on which, before the
/// pruning, no segment carries a name that the registry does not hold but
/// could still give out.
pub proof fn law_label_uniqueness(
    pre: Wiring,
    lm0: LabelManager,
    extras: Seq<SSPoint>,
    post: Wiring,
    lm: LabelManager,
    k1: EdgeKey,
    k2: EdgeKey,
)
    requires
        names_safe(pre.edges, lm0),
        pruned_from(pre, lm0, extras, post, lm),
        post.edges.contains_key(k1),
        post.edges.contains_key(k2),
        !connected(post.edges, k1.0, k2.0),
    ensures
        post.edges[k1].name() != post.edges[k2].name(),
{
    if post.edges[k1].name() == post.edges[k2].name() {
        lemma_unique(post.edges, k1, k2);
    }
}

/// After pruning, no segment has a node in its open interior.
pub proof fn law_no_node_inside(
    pre: Wiring,
    lm0: LabelManager,
    extras: Seq<SSPoint>,
    post: Wiring,
    lm: LabelManager,
    k: EdgeKey,
    n: Coord,
)
    requires
        pruned_from(pre, lm0, extras, post, lm),
        post.edges.contains_key(k),
        post.nodes.contains(n),
    ensures
        !key_passes(k, SSPoint::at(n)),
{
    reveal(Wiring::bisected);
    assert(post.split_free(SSPoint::at(n)));
}

/// After pruning, no segment has one of the given points in its open
/// interior.
pub proof fn law_no_extra_vertex_inside(
    pre: Wiring,
    lm0: LabelManager,
    extras: Seq<SSPoint>,
    post: Wiring,
    lm: LabelManager,
    k: EdgeKey,
    i: int,
)
    requires
        pruned_from(pre, lm0, extras, post, lm),
        post.edges.contains_key(k),
        0 <= i < extras.len(),
    ensures
        !key_passes(k, extras[i]),
{
    reveal(cut_at_all);
    assert(post.split_free(extras[i]));
}

/// After pruning, a node with exactly two neighbours that lies on the
/// straight segment between them is one of the given points; with no
/// points given there is no such node. Every node has a segment.
pub proof fn law_no_redundant_waypoint(
    pre: Wiring,
    lm0: LabelManager,
    extras: Seq<SSPoint>,
    post: Wiring,
    lm: LabelManager,
    n: Coord,
)
    requires
        pruned_from(pre, lm0, extras, post, lm),
        post.nodes.contains(n),
    ensures
        post.redundant(n) ==> extras.contains(SSPoint::at(n)),
        extras.len() == 0 ==> !post.redundant(n),
        !post.isolated(n),
{
    lemma_not_isolated(post, n);
    if post.redundant(n) {
        lemma_waypoint(post, extras, n);
    }
}

/// Clicking through the segments at a point: where the bounds of two or
/// more segments hold `p`, the first and the second hit are two different
/// segments, between different pairs of nodes. Since the hits are told from
/// the state of the nets alone, the same clicks on the same nets select the
/// same segments.
pub proof fn law_selectable_cycles(nets: Nets, p: SSPoint)
    requires
        nets.wf(),
        nets.hits(p).len() >= 2,
    ensures
        edge_key(nets.hits(p)[0].src.key(), nets.hits(p)[0].dst.key()) != edge_key(
            nets.hits(p)[1].src.key(),
            nets.hits(p)[1].dst.key(),
        ),
{
    let es = nets.edge_seq();
    let el = graph_edge_list(nets.wires());
    let pred = |e: NetEdge| e.interactable.bounds.covers(p);
    let r = lemma_filter_order(es, pred, 0, 1);
    lemma_table_of_list(el);
    assert(es[r.0] == el[r.0].2 && es[r.1] == el[r.1].2);
    let ka = (el[r.0].0, el[r.0].1);
    let kb = (el[r.1].0, el[r.1].1);
    assert(nets.wiring().edges.contains_key(ka));
    assert(nets.wiring().edges.contains_key(kb));
    assert(!(el[r.0].0 == el[r.1].0 && el[r.0].1 == el[r.1].1));
}

/// Every segment that a click can select is a segment of the graph: what
/// holds of all segments, such as that they have names after pruning, holds
/// of every hit.
pub proof fn law_hits_are_segments(nets: Nets, p: SSPoint, i: int) -> (k: EdgeKey)
    requires
        nets.wf(),
        0 <= i < nets.hits(p).len(),
    ensures
        nets.edges().contains_key(k),
        nets.edges()[k] == nets.hits(p)[i],
{
    let es = nets.edge_seq();
    let el = graph_edge_list(nets.wires());
    let pred = |e: NetEdge| e.interactable.bounds.covers(p);
    let a = lemma_filter_place(es, pred, i);
    lemma_table_of_list(el);
    assert(es[a] == el[a].2);
    (el[a].0, el[a].1)
}

/// Two floating names given out one after the other, with no reset in
/// between, differ.
pub proof fn law_floating_names_differ(
    m0: LabelManager,
    m1: LabelManager,
    m2: LabelManager,
    first: Seq<char>,
    second: Seq<char>,
)
    requires
        LabelManager::floats(m0, m1, first),
        LabelManager::floats(m1, m2, second),
    ensures
        first != second,
{
    if first == second {
        lemma_floating_name_injective(
            (m1.floating_watermark() - 1) as nat,
            (m2.floating_watermark() - 1) as nat,
        );
    }
}

/// A floating name is no registered name, when it is given out and, since
/// giving it out registers nothing, afterwards.
pub proof fn law_floating_name_not_registered(m0: LabelManager, m1: LabelManager, name: Seq<char>)
    requires
        LabelManager::floats(m0, m1, name),
    ensures
        !m0.registered().contains(name),
        !m1.registered().contains(name),
{
}

/// A permanent name is given out once: it is registered from then on, and
/// no name that is registered is given out.
pub proof fn law_permanent_names_differ(
    m0: LabelManager,
    m1: LabelManager,
    m2: LabelManager,
    m3: LabelManager,
    first: Seq<char>,
    second: Seq<char>,
)
    requires
        LabelManager::mints(m0, m1, first),
        m1.registered().subset_of(m2.registered()),
        LabelManager::mints(m2, m3, second),
    ensures
        first != second,
{
    assert(m1.registered().contains(first));
}

} // verus!
